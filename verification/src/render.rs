//! From a scene to what the render thread puts on screen.

use vstd::prelude::*;

use vstd::arithmetic::power::*;

use crate::config;
use crate::config::{Config, Display};
use crate::layout;
use crate::layout::{FitLine, FitLineView, Scale};
use crate::markup;
use crate::scene;
use crate::scene::{Content, ContentView, Scene, SceneView};
use crate::text;
use crate::time;
use crate::time::Timestamp;

verus! {

/// Everything the render thread needs to put on screen. Text fields are final
/// Pango markup: escaping (and the countdown label wrapper) happened already;
/// nothing downstream inspects or transforms them.
#[derive(Debug, PartialEq, Eq)]
pub struct RenderSpec {
    pub bg_argb: u32,
    pub text_markup: String,
    pub text_argb: u32,
    /// Pixel size for the main text, already shrunk to fit. An over-tall layout
    /// is silently dropped, so the size must always fit.
    pub text_px: u32,
    pub clock_text: String,
}

/// A render spec by its texts.
pub struct RenderSpecView {
    pub bg_argb: u32,
    pub text_markup: Seq<char>,
    pub text_argb: u32,
    pub text_px: u32,
    pub clock_text: Seq<char>,
}

impl View for RenderSpec {
    type V = RenderSpecView;

    open spec fn view(&self) -> RenderSpecView {
        RenderSpecView {
            bg_argb: self.bg_argb,
            text_markup: self.text_markup@,
            text_argb: self.text_argb,
            text_px: self.text_px,
            clock_text: self.clock_text@,
        }
    }
}

impl Clone for RenderSpec {
    fn clone(&self) -> (r: RenderSpec)
        ensures
            r == *self,
    {
        RenderSpec {
            bg_argb: self.bg_argb,
            text_markup: self.text_markup.clone(),
            text_argb: self.text_argb,
            text_px: self.text_px,
            clock_text: self.clock_text.clone(),
        }
    }
}

impl RenderSpec {
    /// Whether two specs put the same on screen.
    pub fn same_as(&self, other: &RenderSpec) -> (r: bool)
        ensures
            r == (self@ == other@),
    {
        self.bg_argb == other.bg_argb && self.text_argb == other.text_argb && self.text_px
            == other.text_px && text::same_text(
            self.text_markup.as_str(),
            other.text_markup.as_str(),
        ) && text::same_text(self.clock_text.as_str(), other.clock_text.as_str())
    }
}

/// The logical lines of `content`, for sizing: a label's line breaks render as real
/// ones, so each of its lines counts.
pub open spec fn fit_lines(content: ContentView, now: Timestamp) -> Seq<FitLineView> {
    match content {
        ContentView::Text { text } => layout::scaled(
            text::text_lines(layout::clamped(text)),
            Scale::Full,
        ),
        ContentView::Countdown { target, label } => {
            let digits = FitLineView {
                text: scene::countdown_text(scene::secs_shown(target, now)),
                scale: Scale::Full,
            };
            match label {
                Some(l) => layout::scaled(
                    text::text_lines(layout::clamped(l)),
                    Scale::Label,
                ).push(digits),
                None => seq![digits],
            }
        },
    }
}

/// `content` as markup: escaped text, or digits under a smaller escaped label.
pub open spec fn content_markup(content: ContentView, now: Timestamp) -> Seq<char> {
    match content {
        ContentView::Text { text } => markup::escaped(layout::clamped(text)),
        ContentView::Countdown { target, label } => {
            let digits = scene::countdown_text(scene::secs_shown(target, now));
            match label {
                Some(l) => "<span size=\"60%\">"@ + markup::escaped(layout::clamped(l))
                    + "</span>\n"@ + digits,
                None => digits,
            }
        },
    }
}

/// What padding on both sides leaves of `size`, never less than a pixel.
pub open spec fn usable(size: u32, padding: u32) -> int {
    if size - 2 * padding >= 1 {
        size - 2 * padding
    } else {
        1
    }
}

/// The size of the text of `content` on display `d`.
pub open spec fn content_px(content: ContentView, now: Timestamp, d: Display) -> int {
    layout::fitted(
        fit_lines(content, now),
        config::max_px_of(d.font@),
        usable(d.width, d.padding_x),
        usable(d.height, d.padding_y),
    )
}

/// What is on screen for `scene` at `now`; `invert` swaps the two colours.
pub open spec fn derived(s: SceneView, now: Timestamp, c: Config, invert: bool) -> RenderSpecView {
    let (bg, fg) = if invert {
        (s.fg, s.bg)
    } else {
        (s.bg, s.fg)
    };
    RenderSpecView {
        bg_argb: bg.packed(0xff) as u32,
        text_markup: content_markup(s.content, now),
        text_argb: fg.packed(0xff) as u32,
        text_px: content_px(s.content, now, c.display) as u32,
        clock_text: time::clock_face(
            now,
            time::zone_offset(c.clock.timezone.named(), now.secs()),
        ),
    }
}

fn usable_px(size: u32, padding: u32) -> (r: u32)
    ensures
        r == usable(size, padding),
        r > 0,
{
    let left: i64 = size as i64 - 2 * padding as i64;
    if left >= 1 {
        left as u32
    } else {
        1
    }
}

fn lines_of(text: &str, scale: Scale) -> (r: Vec<FitLine>)
    ensures
        layout::line_views(r@) == layout::scaled(text::text_lines(text@), scale),
{
    let lines = text::lines(&text::chars_of(text));
    let ghost all = text::texts(lines@);
    let mut out: Vec<FitLine> = Vec::new();
    assert(all.take(0) =~= Seq::<Seq<char>>::empty());
    for i in 0..lines.len()
        invariant
            all == text::texts(lines@),
            layout::line_views(out@) =~= layout::scaled(all.take(i as int), scale),
    {
        let text = text::copy_chars(&lines[i]);
        let ghost before = out@;
        let line = FitLine { text, scale };
        out.push(line);
        proof {
            assert(layout::line_views(out@) =~= layout::line_views(before).push(line@));
            assert(all.take(i + 1) =~= all.take(i as int).push(all[i as int]));
            assert(layout::scaled(all.take(i + 1), scale) =~= layout::scaled(
                all.take(i as int),
                scale,
            ).push(FitLineView { text: all[i as int], scale }));
        }
    }
    assert(all.take(all.len() as int) =~= all);
    out
}

/// Turn the scene into final on-screen strings. This is the only place
/// network/config text meets markup: everything is escaped here, and the label
/// wrapper is the only markup that is added. `invert` swaps fg/bg (the flash
/// effect); the scene keeps its real colours.
pub fn derive_spec(scene: &Scene, now: Timestamp, config: &Config, invert: bool) -> (r: RenderSpec)
    ensures
        r@ == derived(scene@, now, *config, invert),
{
    let (lines, text_markup) = match &scene.content {
        Content::Text { text } => {
            let shown = layout::clamp_display(text.as_str());
            (
                lines_of(shown.as_str(), Scale::Full),
                markup::markup_escape_text(shown.as_str()),
            )
        },
        Content::Countdown { target, label } => {
            let digits = scene::format_countdown(*target, now);
            let digit_line = FitLine { text: text::chars_of(digits.as_str()), scale: Scale::Full };
            match label {
                Some(label) => {
                    let label = layout::clamp_display(label.as_str());
                    let mut lines = lines_of(label.as_str(), Scale::Label);
                    let ghost before = lines@;
                    lines.push(digit_line);
                    assert(layout::line_views(lines@) =~= layout::line_views(before).push(
                        digit_line@,
                    ));
                    let mut m = "<span size=\"60%\">".to_owned();
                    let escaped = markup::markup_escape_text(label.as_str());
                    m.append(escaped.as_str());
                    m.append("</span>\n");
                    m.append(digits.as_str());
                    (lines, m)
                },
                None => {
                    let mut lines: Vec<FitLine> = Vec::new();
                    lines.push(digit_line);
                    assert(layout::line_views(lines@) =~= seq![digit_line@]);
                    (lines, digits)
                },
            }
        },
    };
    proof {
        lemma_fit_lines(scene@.content, now);
    }
    let d = &config.display;
    let usable_w = usable_px(d.width, d.padding_x);
    let usable_h = usable_px(d.height, d.padding_y);
    let (bg, fg) = if invert {
        (scene.fg, scene.bg)
    } else {
        (scene.bg, scene.fg)
    };
    RenderSpec {
        bg_argb: bg.to_argb(0xff),
        text_markup,
        text_argb: fg.to_argb(0xff),
        text_px: layout::fit_font_px(&lines, d.max_font_px(), usable_w, usable_h),
        clock_text: scene::format_clock(now, &config.clock.timezone),
    }
}

/// What the pipeline is built with: one frame size and rate for every layer, an
/// opaque background, and two text layers on canvases that let it through.
#[derive(Debug, PartialEq, Eq)]
pub struct PipelineSettings {
    pub width: i32,
    pub height: i32,
    pub fps: i32,
    /// Whether the sources run in real time; a snapshot needs only its one frame.
    pub live: bool,
    pub bg_argb: u32,
    /// Anything but fully transparent would occlude the background.
    pub canvas_argb: u32,
    pub text_font: String,
    pub text_xpad: i32,
    pub text_ypad: i32,
    pub clock_font: String,
    pub clock_halign: &'static str,
    pub clock_valign: &'static str,
    pub clock_xpad: i32,
    pub clock_ypad: i32,
}

/// What the pipeline is built with, for a configuration that is sound.
pub fn pipeline_settings(config: &Config, snapshot: bool) -> (r: PipelineSettings)
    requires
        config::config_fault(*config) is None,
    ensures
        r.width == config.display.width,
        r.height == config.display.height,
        r.fps == config.display.fps,
        r.live == !snapshot,
        r.bg_argb == (scene::Rgb { r: 0, g: 0, b: 0 }).packed(0xff),
        r.canvas_argb == 0,
        r.text_font@ == config::sized_font(
            config::family_of(config.display.font@),
            config::max_px_of(config.display.font@),
        ),
        r.text_xpad == config.display.padding_x,
        r.text_ypad == config.display.padding_y,
        r.clock_font@ == config.clock.font@,
        (r.clock_halign@, r.clock_valign@) == config::aligned(config.clock.position),
        r.clock_xpad == 48,
        r.clock_ypad == 32,
{
    let d = &config.display;
    let (clock_halign, clock_valign) = config.clock.position.alignment();
    PipelineSettings {
        width: d.width as i32,
        height: d.height as i32,
        fps: d.fps as i32,
        live: !snapshot,
        bg_argb: scene::Rgb::black().to_argb(0xff),
        canvas_argb: 0,
        text_font: config::font_desc(d.font_family(), d.max_font_px()),
        text_xpad: d.padding_x as i32,
        text_ypad: d.padding_y as i32,
        clock_font: config.clock.font.clone(),
        clock_halign,
        clock_valign,
        clock_xpad: 48,
        clock_ypad: 32,
    }
}

/// A flash swaps the two colours and changes nothing else.
pub proof fn law_invert_swaps_colours_only(s: SceneView, now: Timestamp, c: Config)
    ensures
        ({
            let normal = derived(s, now, c, false);
            let inverted = derived(s, now, c, true);
            &&& inverted.bg_argb == normal.text_argb
            &&& inverted.text_argb == normal.bg_argb
            &&& inverted.text_markup == normal.text_markup
            &&& inverted.text_px == normal.text_px
            &&& inverted.clock_text == normal.clock_text
        }),
{
}

/// No command touches the clock: it shows the same whatever the scene.
pub proof fn law_clock_shows_across_every_scene(
    a: SceneView,
    b: SceneView,
    now: Timestamp,
    c: Config,
    flash_a: bool,
    flash_b: bool,
)
    ensures
        derived(a, now, c, flash_a).clock_text == derived(b, now, c, flash_b).clock_text,
{
}

/// Text is rendered literally: what its markup shows is the clamped text, up to the
/// first NUL.
pub proof fn law_text_shows_literally(t: Seq<char>, now: Timestamp)
    ensures
        markup::shown_text(content_markup(ContentView::Text { text: t }, now)) == Some(
            markup::before_nul(layout::clamped(t)),
        ),
{
    markup::law_escaped_text_shows_literally(layout::clamped(t));
}

/// Whether `s` is made of digits, colons and minus signs.
pub open spec fn is_clockwork(s: Seq<char>) -> bool {
    forall|i: int|
        0 <= i < s.len() ==> text::is_digit(#[trigger] s[i]) || s[i] == ':' || s[i] == '-'
}

proof fn lemma_clockwork_shows_literally(s: Seq<char>)
    requires
        is_clockwork(s),
    ensures
        markup::shown_text(s) == Some(s),
    decreases s.len(),
{
    if s.len() > 0 {
        let rest = s.skip(1);
        assert(s =~= seq![s[0]] + rest);
        assert forall|i: int| 0 <= i < rest.len() implies text::is_digit(#[trigger] rest[i])
            || rest[i] == ':' || rest[i] == '-' by {
            assert(rest[i] == s[i + 1]);
        }
        assert(text::is_digit(s[0]) || s[0] == ':' || s[0] == '-');
        lemma_clockwork_shows_literally(rest);
    } else {
        assert(s =~= Seq::<char>::empty());
    }
}

pub proof fn lemma_countdown_is_clockwork(secs: int)
    ensures
        is_clockwork(scene::countdown_text(secs)),
{
    let s = if secs < 0 {
        -secs
    } else {
        secs
    };
    text::lemma_decimal_is_digits((s / 60) as nat);
    text::lemma_decimal_is_digits((s / 3600) as nat);
}

/// A countdown is rendered literally: its digits show as they are, and so does its
/// label, clamped and up to the first NUL, inside the one tag that is added.
pub proof fn law_countdown_shows_literally(target: Timestamp, label: Seq<char>, now: Timestamp)
    ensures
        ({
            let digits = scene::countdown_text(scene::secs_shown(target, now));
            let shown = markup::escaped(layout::clamped(label));
            &&& content_markup(ContentView::Countdown { target, label: None }, now) == digits
            &&& markup::shown_text(digits) == Some(digits)
            &&& content_markup(ContentView::Countdown { target, label: Some(label) }, now)
                == "<span size=\"60%\">"@ + shown + "</span>\n"@ + digits
            &&& markup::shown_text(shown) == Some(markup::before_nul(layout::clamped(label)))
        }),
{
    let secs = scene::secs_shown(target, now);
    lemma_countdown_is_clockwork(secs);
    lemma_clockwork_shows_literally(scene::countdown_text(secs));
    markup::law_escaped_text_shows_literally(layout::clamped(label));
}

/// What `status` gives as the display string is what is on screen, for text within
/// the display bounds and for a countdown without a label.
pub proof fn law_status_tells_what_is_on_screen(content: ContentView, now: Timestamp)
    requires
        match content {
            ContentView::Text { text } => layout::displayable(text) && forall|i: int|
                0 <= i < text.len() ==> text[i] != '\0',
            ContentView::Countdown { label, .. } => label is None,
        },
    ensures
        markup::shown_text(content_markup(content, now)) == Some(scene::displayed(content, now)),
{
    match content {
        ContentView::Text { text } => {
            markup::law_escaped_text_shows_literally(text);
        },
        ContentView::Countdown { target, .. } => {
            lemma_countdown_is_clockwork(scene::secs_shown(target, now));
            lemma_clockwork_shows_literally(scene::displayed(content, now));
        },
    }
}

/// The configured size is used whenever the text fits at it, and each part of it that
/// spaces separate fits in the frame by itself.
pub proof fn law_text_that_fits_gets_the_configured_size(
    content: ContentView,
    now: Timestamp,
    d: Display,
)
    requires
        layout::pieces_fit(
            fit_lines(content, now),
            config::max_px_of(d.font@),
            usable(d.width, d.padding_x),
        ),
        config::max_px_of(d.font@) >= layout::MIN_FONT_PX,
        layout::fits(
            fit_lines(content, now),
            config::max_px_of(d.font@),
            usable(d.width, d.padding_x),
            usable(d.height, d.padding_y),
        ),
    ensures
        content_px(content, now, d) == config::max_px_of(d.font@),
{
    let lines = fit_lines(content, now);
    let max = config::max_px_of(d.font@);
    let w = usable(d.width, d.padding_x);
    let h = usable(d.height, d.padding_y);
    layout::law_size_is_the_largest_that_fits(lines, max, max, w, h);
    layout::lemma_fitted(lines, max, w, h);
}

proof fn lemma_decimal_length(n: nat, k: nat)
    requires
        k >= 1,
        n < pow(10, k),
    ensures
        text::decimal(n).len() <= k,
    decreases k,
{
    if n >= 10 {
        reveal(pow);
        if k == 1 {
            assert(pow(10, 1) == 10 * pow(10, 0));
        } else {
            assert(pow(10, k) == 10 * pow(10, (k - 1) as nat));
            lemma_decimal_length(n / 10, (k - 1) as nat);
        }
    }
}

pub proof fn lemma_digits_width(target: Timestamp, now: Timestamp)
    ensures
        scene::countdown_text(scene::secs_shown(target, now)).len() <= 30,
{
    let secs = scene::secs_shown(target, now);
    time::lemma_span_between(target, now);
    let s = if secs < 0 {
        -secs
    } else {
        secs
    };
    assert(0 <= s < 100_000_000_000_000_000_000);
    assert(pow(10, 20) == 100_000_000_000_000_000_000) by {
        reveal(pow);
        reveal_with_fuel(pow, 21);
    }
    lemma_decimal_length((s / 60) as nat, 20);
    lemma_decimal_length((s / 3600) as nat, 20);
}

/// What is sized is within the display bounds.
pub proof fn lemma_fit_lines(content: ContentView, now: Timestamp)
    ensures
        layout::within_display(fit_lines(content, now)),
        fit_lines(content, now).len() <= 41,
        layout::total_text(fit_lines(content, now)) <= 4031,
{
    let lines = fit_lines(content, now);
    match content {
        ContentView::Text { text } => {
            lemma_clamped_lines(text, Scale::Full);
        },
        ContentView::Countdown { target, label } => {
            lemma_digits_width(target, now);
            match label {
                Some(l) => {
                    lemma_clamped_lines(l, Scale::Label);
                    let above = layout::scaled(
                        text::text_lines(layout::clamped(l)),
                        Scale::Label,
                    );
                    assert(lines.drop_last() =~= above);
                    assert forall|i: int| 0 <= i < lines.len() implies (
                    #[trigger] lines[i]).text.len() <= layout::MAX_DISPLAY_CHARS + 1 by {
                        if i < above.len() {
                            assert(lines[i] == above[i]);
                        }
                    }
                },
                None => {
                    assert(lines.drop_last() =~= Seq::<FitLineView>::empty());
                    assert(layout::total_text(lines.drop_last()) == 0);
                },
            }
        },
    }
}

pub proof fn lemma_clamped_lines(t: Seq<char>, scale: Scale)
    ensures
        ({
            let lines = layout::scaled(text::text_lines(layout::clamped(t)), scale);
            &&& layout::within_display(lines)
            &&& lines.len() <= 40
            &&& layout::total_text(lines) <= 4001
        }),
{
    let parts = text::text_lines(layout::clamped(t));
    layout::law_clamping_bounds_the_display(t);
    layout::lemma_lines_size(layout::clamped(t));
    layout::lemma_total_text(parts, scale);
    layout::lemma_parts_are_shorter(parts);
    let lines = layout::scaled(parts, scale);
    assert forall|i: int| 0 <= i < lines.len() implies (#[trigger] lines[i]).text.len()
        <= layout::MAX_DISPLAY_CHARS + 1 by {
        assert(lines[i].text == parts[i]);
    }
}

/// At the size that is chosen, whatever the content, the layout fits a 1080p frame
/// with the usual padding: nothing that reaches the screen is culled.
#[verifier::spinoff_prover]
pub proof fn law_every_layout_renders(
    content: ContentView,
    now: Timestamp,
    max_px: int,
    usable_w: int,
    usable_h: int,
)
    requires
        usable_w >= 1920 - 2 * 96,
        usable_h >= 1080 - 2 * 64,
    ensures
        ({
            let lines = fit_lines(content, now);
            let px = layout::fitted(lines, max_px, usable_w, usable_h);
            layout::height(lines, px, usable_w) <= usable_h * layout::PIXEL
        }),
{
    let lines = fit_lines(content, now);
    let px = layout::fitted(lines, max_px, usable_w, usable_h);
    layout::lemma_fitted(lines, max_px, usable_w, usable_h);
    if px > layout::MIN_FONT_PX {
        assert(layout::fits(lines, px, usable_w, usable_h));
    } else {
        assert(px == layout::MIN_FONT_PX);
        lemma_fit_lines(content, now);
        layout::lemma_smallest_height(lines, usable_w);
        let n = layout::total_wrapped(lines, usable_w);
        let extra = n - lines.len();
        let room = usable_w * layout::PIXEL;
        assert(extra <= 48) by (nonlinear_arith)
            requires
                extra * room <= 2 * (layout::SMALLEST_ADVANCE * 4031),
                room >= 1728 * layout::PIXEL,
        ;
        assert(n * layout::SMALLEST_LINE <= 89 * layout::SMALLEST_LINE) by (nonlinear_arith)
            requires
                n <= 89,
        ;
    }
}

} // verus!
