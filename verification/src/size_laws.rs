//! What the size of the text on screen promises, in whole pixels and hundredths of an em.

use vstd::prelude::*;

use vstd::arithmetic::mul::*;

use crate::config;
use crate::config::Config;
use crate::double;
use crate::laws;
use crate::layout;
use crate::layout::{FitLineView, Scale, Wrapped};
use crate::markup;
use crate::render;
use crate::scene;
use crate::scene::{ContentView, SceneView};
use crate::text;
use crate::time::Timestamp;

verus! {

/// What padding on both sides leaves of `size`, and a pixel at least.
pub open spec fn room(size: u32, padding: u32) -> int {
    if size > 2 * padding {
        size - 2 * padding
    } else {
        1
    }
}

/// The size of the text on screen.
pub open spec fn text_px(s: SceneView, now: Timestamp, c: Config, invert: bool) -> int {
    render::derived(s, now, c, invert).text_px as int
}

/// The size of the text is that of the content, whatever the colours.
#[verifier::spinoff_prover]
proof fn lemma_text_px(s: SceneView, now: Timestamp, c: Config, invert: bool)
    ensures
        text_px(s, now, c, invert) == render::content_px(s.content, now, c.display),
        layout::MIN_FONT_PX <= text_px(s, now, c, invert) <= 0x5555_5555,
        text_px(s, now, c, invert) > 8 ==> layout::fits(
            render::fit_lines(s.content, now),
            text_px(s, now, c, invert),
            room(c.display.width, c.display.padding_x),
            room(c.display.height, c.display.padding_y),
        ),
        render::usable(c.display.width, c.display.padding_x) == room(
            c.display.width,
            c.display.padding_x,
        ),
        render::usable(c.display.height, c.display.padding_y) == room(
            c.display.height,
            c.display.padding_y,
        ),
{
    let d = c.display;
    layout::lemma_fitted(
        render::fit_lines(s.content, now),
        config::max_px_of(d.font@),
        render::usable(d.width, d.padding_x),
        render::usable(d.height, d.padding_y),
    );
    assert(config::max_px_of(d.font@) <= 0x5555_5555);
}

/// How tall a line of this scale is, in quarters of the main size: a quarter more than
/// its em.
pub open spec fn quarters(scale: Scale) -> int {
    match scale {
        Scale::Full => 5,
        Scale::Label => 3,
    }
}

/// How tall `lines` are at size `px`, in quarters of a pixel: all lines that each of them
/// wraps to.
pub open spec fn quarters_tall(lines: Seq<FitLineView>, px: int, usable_w: int) -> int
    decreases lines.len(),
{
    if lines.len() == 0 {
        0
    } else {
        quarters_tall(lines.drop_last(), px, usable_w) + quarters(lines.last().scale) * px
            * layout::wrapped_lines(
            lines.last().text,
            layout::em_px(px, lines.last().scale),
            usable_w,
        )
    }
}

/// Five ems are five or three times the size to within two parts in two to the power of
/// 53.
#[verifier::spinoff_prover]
proof fn lemma_five_ems(px: int, scale: Scale)
    requires
        px >= 0,
    ensures
        quarters(scale) * px * 0x3f_ffff_ffff_fff4 <= 5 * layout::em_px(px, scale)
            <= quarters(scale) * px * 0x40_0000_0000_000c,
{
    let exact = px * layout::scale_of(scale);
    double::lemma_rounded(exact);
    let e = layout::em_px(px, scale);
    let q = quarters(scale) * px;
    match scale {
        Scale::Full => {
            assert(exact == px * 0x40_0000_0000_0000);
            assert(q == 5 * px);
            assert(e - exact <= 2 * px && exact - e <= 2 * px);
        },
        Scale::Label => {
            assert(exact == px * 0x26_6666_6666_6666);
            assert(q == 3 * px);
            assert(e - exact <= 2 * px && exact - e <= 2 * px);
        },
    }
    assert(q * 0x3f_ffff_ffff_fff4 <= 5 * e);
    assert(5 * e <= q * 0x40_0000_0000_000c);
}

/// The height that is measured is the height that the lines add up to, all but rounding.
#[verifier::spinoff_prover]
proof fn lemma_height_in_quarters(lines: Seq<FitLineView>, px: int, usable_w: int)
    requires
        px >= 0,
        usable_w > 0,
        lines.len() <= 1000,
        forall|i: int|
            0 <= i < lines.len() ==> layout::measurable(#[trigger] lines[i], px, usable_w),
    ensures
        quarters_tall(lines, px, usable_w) >= 0,
        quarters_tall(lines, px, usable_w) * (0x40_0000_0000_0000 - 16 - 4 * lines.len())
            <= layout::height(lines, px, usable_w) <= quarters_tall(lines, px, usable_w) * (
        0x40_0000_0000_0000 + 16 + 4 * lines.len()),
    decreases lines.len(),
{
    if lines.len() > 0 {
        let before = lines.drop_last();
        let last = lines.last();
        assert(lines[lines.len() - 1] == last);
        assert forall|i: int| 0 <= i < before.len() implies layout::measurable(
            #[trigger] before[i],
            px,
            usable_w,
        ) by {
            assert(before[i] == lines[i]);
        }
        lemma_height_in_quarters(before, px, usable_w);
        layout::lemma_line_height(last, px, usable_w);
        layout::lemma_em_px(px, last.scale);
        lemma_five_ems(px, last.scale);
        let e = layout::em_px(px, last.scale);
        let n = layout::wrapped_lines(last.text, e, usable_w);
        let q = quarters(last.scale) * px;
        let m1 = quarters_tall(before, px, usable_w);
        let m2 = q * n;
        let unit = 0x40_0000_0000_0000int;
        assert(m2 * 0x3f_ffff_ffff_fff4 <= n * (5 * e) <= m2 * 0x40_0000_0000_000c) by (nonlinear_arith)
            requires
                m2 == q * n,
                q * 0x3f_ffff_ffff_fff4 <= 5 * e <= q * 0x40_0000_0000_000c,
                n >= 0,
        ;
        assert(m2 >= 0) by (nonlinear_arith)
            requires
                m2 == q * n,
                q >= 0,
                n >= 0,
        ;
        let x = n * (5 * e);
        lemma_mul_nonnegative(n, 5 * e);
        double::lemma_rounded(x);
        let h1 = layout::height(before, px, usable_w);
        let h2 = layout::line_height(last, px, usable_w);
        double::lemma_rounded(h1 + h2);
        layout::lemma_height(before, px, usable_w);
        lemma_slack(
            m1,
            m2,
            h1,
            h2,
            layout::height(lines, px, usable_w),
            16 + 4 * before.len() as int,
        );
        assert(16 + 4 * before.len() + 4 == 16 + 4 * lines.len());
    }
}

/// Rounding a sum adds little to what its parts are off by.
#[verifier::spinoff_prover]
proof fn lemma_slack(m1: int, m2: int, h1: int, h2: int, h: int, t: int)
    requires
        m1 >= 0,
        m2 >= 0,
        15 <= t <= 0x1_0000_0000,
        m1 * (0x40_0000_0000_0000 - t) <= h1 <= m1 * (0x40_0000_0000_0000 + t),
        m2 * 0x3f_ffff_ffff_fff1 <= h2 <= m2 * 0x40_0000_0000_000f,
        0x20_0000_0000_0000 * (h - (h1 + h2)) <= h1 + h2,
        0x20_0000_0000_0000 * ((h1 + h2) - h) <= h1 + h2,
    ensures
        (m1 + m2) * (0x40_0000_0000_0000 - (t + 4)) <= h <= (m1 + m2) * (0x40_0000_0000_0000 + (t
            + 4)),
{
    let unit = 0x40_0000_0000_0000int;
    let m = m1 + m2;
    let a = m1 * t;
    let b = m2 * t;
    assert(m1 * (unit - t) == m1 * unit - a && m1 * (unit + t) == m1 * unit + a)
        by (nonlinear_arith)
        requires
            a == m1 * t,
    ;
    assert(15 * m2 <= b) by (nonlinear_arith)
        requires
            b == m2 * t,
            m2 >= 0,
            t >= 15,
    ;
    assert(a + b <= m * 0x1_0000_0000) by (nonlinear_arith)
        requires
            a == m1 * t,
            b == m2 * t,
            m == m1 + m2,
            m >= 0,
            t <= 0x1_0000_0000,
    ;
    assert(h1 <= m1 * unit + a);
    assert(h2 <= m2 * unit + 15 * m2);
    let s = h1 + h2;
    assert(s <= m * unit + (a + b));
    assert(s <= m * (unit + 0x1_0000_0000));
    assert(h - s <= 4 * m);
    assert(h >= m * unit - (a + b) - 4 * m);
    assert(h <= m * unit + (a + b) + 4 * m);
    assert((m1 + m2) * (0x40_0000_0000_0000 - (t + 4)) == (m1 + m2) * 0x40_0000_0000_0000 - (a + b)
        - 4 * (m1 + m2)) by (nonlinear_arith)
        requires
            a == m1 * t,
            b == m2 * t,
    ;
    assert((m1 + m2) * (0x40_0000_0000_0000 + (t + 4)) == (m1 + m2) * 0x40_0000_0000_0000 + (a + b)
        + 4 * (m1 + m2)) by (nonlinear_arith)
        requires
            a == m1 * t,
            b == m2 * t,
    ;
}

/// What is no taller than the frame by the measured height is no taller by what its lines
/// add up to; and what is taller is at least as tall.
#[verifier::spinoff_prover]
proof fn lemma_height_decides(lines: Seq<FitLineView>, px: int, usable_w: int, usable_h: int)
    requires
        px >= 0,
        usable_w > 0,
        0 < usable_h <= u32::MAX,
        lines.len() <= 50,
        forall|i: int|
            0 <= i < lines.len() ==> layout::measurable(#[trigger] lines[i], px, usable_w),
    ensures
        layout::height(lines, px, usable_w) <= usable_h * layout::PIXEL ==> quarters_tall(
            lines,
            px,
            usable_w,
        ) <= 4 * usable_h,
        layout::height(lines, px, usable_w) > usable_h * layout::PIXEL ==> quarters_tall(
            lines,
            px,
            usable_w,
        ) >= 4 * usable_h,
{
    let m = quarters_tall(lines, px, usable_w);
    let h = layout::height(lines, px, usable_w);
    let t = 16 + 4 * lines.len() as int;
    let unit = 0x40_0000_0000_0000int;
    lemma_height_in_quarters(lines, px, usable_w);
    assert(m * (unit - t) >= m * 0x3f_ffff_ffff_ff28 && m * (unit + t) <= m * 0x40_0000_0000_00d8)
        by (nonlinear_arith)
        requires
            m >= 0,
            t <= 216,
            unit == 0x40_0000_0000_0000,
    ;
    assert(unit - 16 - 4 * lines.len() == unit - t && unit + 16 + 4 * lines.len() == unit + t);
}

/// How many lines a text shows as: one for every line break, and one more for what
/// follows the last, if anything does.
pub open spec fn lines_shown(u: Seq<char>) -> int {
    laws::count(u, '\n') + (if u.len() > 0 && u[u.len() - 1] != '\n' {
        1int
    } else {
        0int
    })
}

#[verifier::spinoff_prover]
proof fn lemma_lines_shown(u: Seq<char>)
    ensures
        text::text_lines(u).len() == lines_shown(u),
    decreases u.len(),
{
    lemma_breaks_are_counted(u);
    laws::law_parts_join_to_the_text(u, '\n');
    let p = text::pieces(u, '\n');
    if u.len() > 0 {
        text::lemma_pieces_nonempty(u.drop_last(), '\n');
        assert(u.last() == u[u.len() - 1]);
    }
}

#[verifier::spinoff_prover]
proof fn lemma_breaks_are_counted(u: Seq<char>)
    ensures
        text::pieces(u, '\n').len() == laws::count(u, '\n') + 1,
        laws::count(u, '\n') >= 0,
    decreases u.len(),
{
    if u.len() > 0 {
        text::lemma_pieces_nonempty(u.drop_last(), '\n');
        lemma_breaks_are_counted(u.drop_last());
        laws::lemma_count_last(u, '\n');
    }
}

/// A text shows as no fewer lines than what it starts with.
#[verifier::spinoff_prover]
proof fn lemma_more_lines_shown(u: Seq<char>, n: int)
    requires
        0 <= n <= u.len(),
    ensures
        lines_shown(u.take(n)) <= lines_shown(u),
    decreases u.len() - n,
{
    if n < u.len() {
        lemma_more_lines_shown(u, n + 1);
        let a = u.take(n + 1);
        assert(a.drop_last() =~= u.take(n));
        laws::lemma_count_last(a, '\n');
        assert(a.last() == u[n]);
    } else {
        assert(u.take(n) =~= u);
    }
}

/// Lines of a text, each as tall as the main size asks.
#[verifier::spinoff_prover]
proof fn lemma_quarters_of_text(parts: Seq<Seq<char>>, scale: Scale, px: int, usable_w: int)
    requires
        px >= 0,
        usable_w > 0,
        px <= u32::MAX,
        forall|i: int| 0 <= i < parts.len() ==> (#[trigger] parts[i]).len() <= 4001,
    ensures
        quarters_tall(layout::scaled(parts, scale), px, usable_w) == quarters(scale) * px
            * rendered_lines(parts, scale, px, usable_w),
        rendered_lines(parts, scale, px, usable_w) >= parts.len(),
    decreases parts.len(),
{
    let lines = layout::scaled(parts, scale);
    if parts.len() > 0 {
        let before = parts.drop_last();
        assert forall|i: int| 0 <= i < before.len() implies (#[trigger] before[i]).len()
            <= 4001 by {
            assert(before[i] == parts[i]);
        }
        assert(lines.drop_last() =~= layout::scaled(before, scale));
        assert(parts[parts.len() - 1] == parts.last());
        lemma_quarters_of_text(before, scale, px, usable_w);
        layout::lemma_line_height(lines.last(), px, usable_w);
        let n = rendered_lines(before, scale, px, usable_w);
        let k = layout::wrapped_lines(parts.last(), layout::em_px(px, scale), usable_w);
        let q = quarters(scale) * px;
        assert(q * n + q * k == q * (n + k)) by (nonlinear_arith);
    } else {
        assert(quarters(scale) * px * 0 == 0) by (nonlinear_arith);
    }
}

/// How many lines `parts` wrap to in all, at size `px`.
pub open spec fn rendered_lines(
    parts: Seq<Seq<char>>,
    scale: Scale,
    px: int,
    usable_w: int,
) -> int
    decreases parts.len(),
{
    if parts.len() == 0 {
        0
    } else {
        rendered_lines(parts.drop_last(), scale, px, usable_w) + layout::wrapped_lines(
            parts.last(),
            layout::em_px(px, scale),
            usable_w,
        )
    }
}

/// Every line that a text shows as is on screen: at the size chosen, unless it is the
/// smallest, all of them together, each a quarter taller than the size, are no taller
/// than the padding leaves of the frame.
#[verifier::spinoff_prover]
pub proof fn law_every_line_shown_has_room(
    s: SceneView,
    now: Timestamp,
    c: Config,
    invert: bool,
    u: Seq<char>,
)
    requires
        s.content is Text,
        markup::shown_text(render::derived(s, now, c, invert).text_markup) == Some(u),
        text_px(s, now, c, invert) > 8,
    ensures
        5 * text_px(s, now, c, invert) * lines_shown(u) <= 4 * room(
            c.display.height,
            c.display.padding_y,
        ),
{
    let t = s.content->text;
    let px = text_px(s, now, c, invert);
    let w = room(c.display.width, c.display.padding_x);
    let whole = layout::clamped(t);
    lemma_text_px(s, now, c, invert);
    markup::law_escaped_text_shows_literally(whole);
    assert(u == markup::before_nul(whole));
    assert(u =~= whole.take(u.len() as int));
    lemma_more_lines_shown(whole, u.len() as int);
    lemma_lines_shown(whole);
    lemma_text_has_room(s, now, c, invert);
    let n = rendered_lines(text::text_lines(whole), Scale::Full, px, w);
    assert(px * lines_shown(u) <= px * n) by (nonlinear_arith)
        requires
            lines_shown(u) <= n,
            px >= 0,
    ;
    assert(5 * px * lines_shown(u) == 5 * (px * lines_shown(u)) && 5 * px * n == 5 * (px * n))
        by (nonlinear_arith);
}

/// The lines of the displayed text, with all lines that they wrap to, have room.
#[verifier::spinoff_prover]
proof fn lemma_text_has_room(s: SceneView, now: Timestamp, c: Config, invert: bool)
    requires
        s.content is Text,
        text_px(s, now, c, invert) > 8,
    ensures
        ({
            let parts = text::text_lines(layout::clamped(s.content->text));
            let px = text_px(s, now, c, invert);
            let w = room(c.display.width, c.display.padding_x);
            let n = rendered_lines(parts, Scale::Full, px, w);
            &&& 5 * px * n <= 4 * room(c.display.height, c.display.padding_y)
            &&& n >= parts.len()
        }),
{
    let parts = text::text_lines(layout::clamped(s.content->text));
    let px = text_px(s, now, c, invert);
    let w = room(c.display.width, c.display.padding_x);
    let h = room(c.display.height, c.display.padding_y);
    let lines = render::fit_lines(s.content, now);
    lemma_text_px(s, now, c, invert);
    render::lemma_fit_lines(s.content, now);
    assert forall|i: int| 0 <= i < lines.len() implies layout::measurable(
        #[trigger] lines[i],
        px,
        w,
    ) by {
        assert(lines[i].text.len() <= layout::MAX_DISPLAY_CHARS + 1);
    }
    assert forall|i: int| 0 <= i < parts.len() implies (#[trigger] parts[i]).len() <= 4001 by {
        assert(lines[i].text == parts[i]);
    }
    lemma_height_decides(lines, px, w, h);
    lemma_quarters_of_text(parts, Scale::Full, px, w);
}

/// The lines of a text have room with all lines that they wrap to: at the size chosen,
/// unless it is the smallest, what each line between two breaks wraps to is no taller,
/// all together, than the padding leaves of the frame.
#[verifier::spinoff_prover]
pub proof fn law_every_wrapped_line_has_room(
    s: SceneView,
    now: Timestamp,
    c: Config,
    invert: bool,
    u: Seq<char>,
)
    requires
        s.content is Text,
        forall|i: int| 0 <= i < s.content->text.len() ==> s.content->text[i] != '\0',
        markup::shown_text(render::derived(s, now, c, invert).text_markup) == Some(u),
        text_px(s, now, c, invert) > 8,
    ensures
        ({
            let px = text_px(s, now, c, invert);
            5 * px * rendered_lines(
                text::text_lines(u),
                Scale::Full,
                px,
                room(c.display.width, c.display.padding_x),
            ) <= 4 * room(c.display.height, c.display.padding_y)
        }),
{
    lemma_shown_is_displayed(s, now, c, invert, u);
    lemma_text_has_room(s, now, c, invert);
}

#[verifier::spinoff_prover]
proof fn lemma_shown_is_displayed(
    s: SceneView,
    now: Timestamp,
    c: Config,
    invert: bool,
    u: Seq<char>,
)
    requires
        s.content is Text,
        forall|i: int| 0 <= i < s.content->text.len() ==> s.content->text[i] != '\0',
        markup::shown_text(render::derived(s, now, c, invert).text_markup) == Some(u),
    ensures
        u == layout::clamped(s.content->text),
{
    let t = s.content->text;
    let whole = layout::clamped(t);
    layout::law_clamping_bounds_the_display(t);
    assert forall|i: int| 0 <= i < whole.len() implies whole[i] != '\0' by {
        if !layout::displayable(t) && i < whole.len() - 1 {
            assert(whole.drop_last()[i] == t[i]);
        }
    }
    markup::law_escaped_text_shows_literally(whole);
}

/// A countdown has room with its label: at the size chosen, unless it is the smallest,
/// what the lines of the label wrap to, at three fifths of the size, and what the digits
/// wrap to under them are no taller than the padding leaves of the frame.
#[verifier::spinoff_prover]
pub proof fn law_every_line_of_a_countdown_has_room(
    s: SceneView,
    now: Timestamp,
    c: Config,
    invert: bool,
)
    requires
        s.content is Countdown,
        text_px(s, now, c, invert) > 8,
    ensures
        ({
            let px = text_px(s, now, c, invert);
            let w = room(c.display.width, c.display.padding_x);
            let h = room(c.display.height, c.display.padding_y);
            let digits = scene::countdown_text(scene::secs_shown(s.content->target, now));
            let under = rendered_lines(seq![digits], Scale::Full, px, w);
            &&& under >= 1
            &&& match s.content->label {
                None => 5 * px * under <= 4 * h,
                Some(l) => {
                    let parts = text::text_lines(layout::clamped(l));
                    let above = rendered_lines(parts, Scale::Label, px, w);
                    &&& above >= parts.len()
                    &&& 3 * px * above + 5 * px * under <= 4 * h
                },
            }
        }),
{
    let px = text_px(s, now, c, invert);
    let w = room(c.display.width, c.display.padding_x);
    let h = room(c.display.height, c.display.padding_y);
    let lines = render::fit_lines(s.content, now);
    let digits = scene::countdown_text(scene::secs_shown(s.content->target, now));
    lemma_text_px(s, now, c, invert);
    render::lemma_fit_lines(s.content, now);
    render::lemma_digits_width(s.content->target, now);
    assert forall|i: int| 0 <= i < lines.len() implies layout::measurable(
        #[trigger] lines[i],
        px,
        w,
    ) by {
        assert(lines[i].text.len() <= layout::MAX_DISPLAY_CHARS + 1);
    }
    lemma_height_decides(lines, px, w, h);
    assert(seq![digits][0].len() <= 4001);
    lemma_quarters_of_text(seq![digits], Scale::Full, px, w);
    assert(seq![digits].drop_last() =~= Seq::<Seq<char>>::empty());
    let under = rendered_lines(seq![digits], Scale::Full, px, w);
    assert(rendered_lines(seq![digits].drop_last(), Scale::Full, px, w) == 0);
    assert(under == layout::wrapped_lines(digits, layout::em_px(px, Scale::Full), w));
    assert(lines.last().text == digits);
    match s.content->label {
        None => {
            assert(lines.drop_last() =~= Seq::<FitLineView>::empty());
            assert(quarters_tall(lines.drop_last(), px, w) == 0);
        },
        Some(l) => {
            let parts = text::text_lines(layout::clamped(l));
            assert(lines.drop_last() =~= layout::scaled(parts, Scale::Label));
            assert forall|i: int| 0 <= i < parts.len() implies (#[trigger] parts[i]).len()
                <= 4001 by {
                assert(lines[i].text == parts[i]);
            }
            lemma_quarters_of_text(parts, Scale::Label, px, w);
        },
    }
}

/// The advance assumed for a character, in hundredths of an em.
pub open spec fn hundredths(c: char) -> int {
    if c == ' ' {
        30
    } else if "iIlj!.,:;'|"@.contains(c) {
        40
    } else if "ftr-()[]\""@.contains(c) {
        55
    } else if "mwMW@"@.contains(c) {
        100
    } else if c <= '\u{7f}' {
        80
    } else {
        130
    }
}

/// How wide a text is, in hundredths of an em: its characters side by side.
pub open spec fn advance(s: Seq<char>) -> int
    decreases s.len(),
{
    if s.len() == 0 {
        0
    } else {
        advance(s.drop_last()) + hundredths(s.last())
    }
}

/// A scale in hundredths.
pub open spec fn percent(scale: Scale) -> int {
    match scale {
        Scale::Full => 100,
        Scale::Label => 60,
    }
}

/// Each character is as wide as is assumed for it.
#[verifier::spinoff_prover]
pub proof fn law_characters_have_their_advance(c: char)
    ensures
        -200 <= 100 * layout::em(c) - hundredths(c) * 0x40_0000_0000_0000 <= 200,
{
    reveal_strlit("iIlj!.,:;'|");
    reveal_strlit("ftr-()[]\"");
    reveal_strlit("mwMW@");
    let narrow = "iIlj!.,:;'|"@;
    let slim = "ftr-()[]\""@;
    let wide = "mwMW@"@;
    if narrow.contains(c) {
        let i = choose|i: int| 0 <= i < narrow.len() && narrow[i] == c;
        assert(narrow[i] == c);
    } else {
        assert(c != narrow[0] && c != narrow[1] && c != narrow[2] && c != narrow[3] && c
            != narrow[4] && c != narrow[5] && c != narrow[6] && c != narrow[7] && c != narrow[8]
            && c != narrow[9] && c != narrow[10]);
    }
    if slim.contains(c) {
        let i = choose|i: int| 0 <= i < slim.len() && slim[i] == c;
        assert(slim[i] == c);
    } else {
        assert(c != slim[0] && c != slim[1] && c != slim[2] && c != slim[3] && c != slim[4] && c
            != slim[5] && c != slim[6] && c != slim[7] && c != slim[8]);
    }
    if wide.contains(c) {
        let i = choose|i: int| 0 <= i < wide.len() && wide[i] == c;
        assert(wide[i] == c);
    } else {
        assert(c != wide[0] && c != wide[1] && c != wide[2] && c != wide[3] && c != wide[4]);
    }
}

/// A text is as wide as its characters side by side, all but rounding.
#[verifier::spinoff_prover]
pub proof fn law_texts_are_as_wide_as_their_characters(s: Seq<char>)
    requires
        s.len() <= 4001,
    ensures
        -(s.len() * 1_638_400) <= 100 * layout::text_width(s) - advance(s) * 0x40_0000_0000_0000
            <= s.len() * 1_638_400,
        0 <= advance(s) <= 130 * s.len(),
    decreases s.len(),
{
    if s.len() > 0 {
        let t = s.drop_last();
        law_texts_are_as_wide_as_their_characters(t);
        law_characters_have_their_advance(s.last());
        layout::lemma_text_width(t);
        layout::lemma_text_width_bound(t);
        double::lemma_rounded(layout::text_width(t) + layout::em(s.last()));
    }
}

/// An em is as large as the size that was asked for, and three fifths of it for a label.
#[verifier::spinoff_prover]
pub proof fn law_ems_are_as_large_as_asked(px: int, scale: Scale)
    requires
        0 <= px <= u32::MAX,
    ensures
        -300 * px <= 100 * layout::em_px(px, scale) - percent(scale) * px * 0x40_0000_0000_0000
            <= 300 * px,
{
    let exact = px * layout::scale_of(scale);
    double::lemma_rounded(exact);
    let e = layout::em_px(px, scale);
    let q = percent(scale) * px;
    match scale {
        Scale::Full => {
            assert(exact == px * 0x40_0000_0000_0000);
            assert(q == 100 * px);
            assert(e - exact <= 2 * px && exact - e <= 2 * px);
        },
        Scale::Label => {
            assert(exact == px * 0x26_6666_6666_6666);
            assert(q == 60 * px);
            assert(e - exact <= 2 * px && exact - e <= 2 * px);
        },
    }
}

/// Whether a text fits in a width is what its characters side by side decide, but where
/// they fill it exactly.
#[verifier::spinoff_prover]
pub proof fn law_width_decides_what_fits(s: Seq<char>, px: int, scale: Scale, usable_w: int)
    requires
        s.len() <= 4001,
        0 <= px <= 2000,
        0 < usable_w <= u32::MAX,
    ensures
        ({
            let w = layout::word_width(s, layout::em_px(px, scale));
            let wide = percent(scale) * px * advance(s);
            &&& w <= usable_w * layout::PIXEL ==> wide <= 10_000 * usable_w
            &&& w > usable_w * layout::PIXEL ==> wide >= 10_000 * usable_w
        }),
{
    let t = layout::text_width(s);
    let e = layout::em_px(px, scale);
    let a = advance(s);
    let q = percent(scale) * px;
    let unit = 0x40_0000_0000_0000int;
    law_texts_are_as_wide_as_their_characters(s);
    law_ems_are_as_large_as_asked(px, scale);
    layout::lemma_text_width(s);
    layout::lemma_em_px(px, scale);
    double::lemma_product(t, e);
    lemma_mul_nonnegative(t, e);
    double::lemma_rounded(t * e);
    let p = double::product(t, e);
    let x = s.len() * 1_638_400;
    assert(0 <= q <= 200_000);
    // (100 t) (100 e) is near (a unit) (q unit).
    lemma_products_near(100 * t, a * unit, x as int, 100 * e, q * unit, 300 * px);
    assert(10_000 * (t * e) == (100 * t) * (100 * e)) by (nonlinear_arith);
    assert((a * unit) * (q * unit) == (q * a) * 0x1000_0000_0000_0000_0000_0000_0000) by (nonlinear_arith)
        requires
            unit == 0x40_0000_0000_0000,
    ;
    assert(percent(scale) * px * a == q * a);
    assert(0 <= q * a) by (nonlinear_arith)
        requires
            q >= 0,
            a >= 0,
    ;
    lemma_decides(q * a, t * e, p, usable_w);
}

/// Two products of numbers that are near each other are near each other.
#[verifier::spinoff_prover]
proof fn lemma_products_near(a: int, b: int, x: int, c: int, d: int, y: int)
    requires
        a >= 0,
        c >= 0,
        0 <= b <= 0x40_0000_0000_0000 * 600_000,
        0 <= d <= 0x40_0000_0000_0000 * 200_000,
        -x <= a - b <= x,
        -y <= c - d <= y,
        0 <= x <= 6_600_000_000,
        0 <= y <= 600_000,
    ensures
        a * c - b * d < 0x800_0000_0000_0000_0000_0000_0000,
        b * d - a * c < 0x800_0000_0000_0000_0000_0000_0000,
{
    // a c - b d == (a - b) c + b (c - d)
    let f = a - b;
    let g = c - d;
    assert(a * c - b * d == f * c + b * g) by (nonlinear_arith)
        requires
            f == a - b,
            g == c - d,
    ;
    let cmax = 0x40_0000_0000_0000int * 200_000 + 600_000;
    assert(-(6_600_000_000 * cmax) <= f * c <= 6_600_000_000 * cmax) by (nonlinear_arith)
        requires
            -6_600_000_000 <= f <= 6_600_000_000,
            0 <= c <= cmax,
    ;
    let bmax = 0x40_0000_0000_0000int * 600_000;
    assert(-(600_000 * bmax) <= b * g <= 600_000 * bmax) by (nonlinear_arith)
        requires
            0 <= b <= bmax,
            -600_000 <= g <= 600_000,
    ;
}

#[verifier::spinoff_prover]
proof fn lemma_decides(wide: int, exact: int, p: int, usable_w: int)
    requires
        wide >= 0,
        exact >= 0,
        0 < usable_w <= u32::MAX,
        10_000 * exact - wide * 0x1000_0000_0000_0000_0000_0000_0000 < 0x800_0000_0000_0000_0000_0000_0000,
        wide * 0x1000_0000_0000_0000_0000_0000_0000 - 10_000 * exact < 0x800_0000_0000_0000_0000_0000_0000,
        0x20_0000_0000_0000 * (p * 0x10_0000_0000_0000 - exact) <= exact,
        0x20_0000_0000_0000 * (exact - p * 0x10_0000_0000_0000) <= exact,
    ensures
        p <= usable_w * layout::PIXEL ==> wide <= 10_000 * usable_w,
        p > usable_w * layout::PIXEL ==> wide >= 10_000 * usable_w,
{
    let r = p * 0x10_0000_0000_0000;
    assert(usable_w * layout::PIXEL == usable_w * 0x100_0000_0000_0000);
    if p <= usable_w * layout::PIXEL {
        assert(r <= usable_w * 0x1000_0000_0000_0000_0000_0000_0000);
        assert(exact <= usable_w * 0x1000_0000_0000_0000_0000_0000_0000 + usable_w * 0x200_0000_0000_0000);
        assert(wide * 0x1000_0000_0000_0000_0000_0000_0000 < 10_000 * usable_w * 0x1000_0000_0000_0000_0000_0000_0000 + 0x1000_0000_0000_0000_0000_0000_0000);
    } else {
        assert(r > usable_w * 0x1000_0000_0000_0000_0000_0000_0000);
        assert(exact >= usable_w * 0x1000_0000_0000_0000_0000_0000_0000 - usable_w * 0x100_0000_0000_0000_0000);
        assert(wide * 0x1000_0000_0000_0000_0000_0000_0000 > 10_000 * usable_w * 0x1000_0000_0000_0000_0000_0000_0000 - 0x1000_0000_0000_0000_0000_0000_0000);
    }
}

/// Whether no white space stands in `s`.
pub open spec fn is_unbroken(s: Seq<char>) -> bool {
    forall|i: int| 0 <= i < s.len() ==> !text::is_space(#[trigger] s[i])
}

/// No run of characters without white space is wider than the widest word.
#[verifier::spinoff_prover]
proof fn lemma_runs_within_widest(s: Seq<char>, a: int, b: int)
    requires
        0 <= a <= b <= s.len(),
        is_unbroken(s.subrange(a, b)),
    ensures
        layout::text_width(s.subrange(a, b)) <= layout::widest_word(s),
        b == s.len() ==> layout::text_width(s.subrange(a, b)) <= layout::run_width(s),
    decreases s.len(),
{
    let r = s.subrange(a, b);
    layout::lemma_widest_word(s);
    if a == b {
        assert(layout::text_width(r) == 0);
    } else {
        let t = s.drop_last();
        if b < s.len() {
            assert(t.subrange(a, b) =~= r);
            lemma_runs_within_widest(t, a, b);
        } else {
            let q = t.subrange(a, b - 1);
            assert(r.drop_last() =~= q);
            assert(r[r.len() - 1] == s.last());
            assert(!text::is_space(s.last()));
            assert forall|i: int| 0 <= i < q.len() implies !text::is_space(#[trigger] q[i]) by {
                assert(q[i] == r[i]);
            }
            lemma_runs_within_widest(t, a, b - 1);
            layout::lemma_text_width(q);
            double::lemma_rounded_grows(
                layout::text_width(q) + layout::em(s.last()),
                layout::run_width(t) + layout::em(s.last()),
            );
        }
    }
}

/// The widest word is a run of characters without white space.
#[verifier::spinoff_prover]
proof fn lemma_widest_is_a_run(s: Seq<char>) -> (r: (int, int))
    ensures
        0 <= r.0 <= r.1 <= s.len(),
        is_unbroken(s.subrange(r.0, r.1)),
        layout::text_width(s.subrange(r.0, r.1)) == layout::widest_word(s),
    decreases s.len(),
{
    if s.len() == 0 {
        assert(s.subrange(0, 0) =~= Seq::<char>::empty());
        (0, 0)
    } else {
        let t = s.drop_last();
        if layout::run_width(s) > layout::widest_word(t) {
            let a = lemma_last_run(s);
            (a, s.len() as int)
        } else {
            let r = lemma_widest_is_a_run(t);
            assert(t.subrange(r.0, r.1) =~= s.subrange(r.0, r.1));
            r
        }
    }
}

#[verifier::spinoff_prover]
proof fn lemma_last_run(s: Seq<char>) -> (a: int)
    ensures
        0 <= a <= s.len(),
        is_unbroken(s.subrange(a, s.len() as int)),
        layout::text_width(s.subrange(a, s.len() as int)) == layout::run_width(s),
    decreases s.len(),
{
    let n = s.len() as int;
    if n == 0 || text::is_space(s.last()) {
        assert(s.subrange(n, n) =~= Seq::<char>::empty());
        n
    } else {
        let t = s.drop_last();
        let a = lemma_last_run(t);
        let r = s.subrange(a, n);
        let q = t.subrange(a, n - 1);
        assert(r.drop_last() =~= q);
        assert(r.last() == s.last());
        assert forall|i: int| 0 <= i < r.len() implies !text::is_space(#[trigger] r[i]) by {
            if i < q.len() {
                assert(q[i] == r[i]);
            }
        }
        a
    }
}

/// What stands at the end of a text behind its last line break ends its last part.
#[verifier::spinoff_prover]
proof fn lemma_end_is_in_last_part(u: Seq<char>, i: int)
    requires
        0 <= i <= u.len(),
        forall|k: int| i <= k < u.len() ==> u[k] != '\n',
    ensures
        ({
            let l = text::pieces(u, '\n').last();
            let n = u.len() - i;
            n <= l.len() && l.subrange(l.len() - n, l.len() as int) == u.subrange(
                i,
                u.len() as int,
            )
        }),
    decreases u.len(),
{
    let p = text::pieces(u, '\n');
    let l = p.last();
    if i == u.len() {
        assert(l.subrange(l.len() as int, l.len() as int) =~= u.subrange(i, i));
    } else {
        let t = u.drop_last();
        text::lemma_pieces_nonempty(t, '\n');
        lemma_end_is_in_last_part(t, i);
        assert(u[u.len() - 1] == u.last());
        let q = text::pieces(t, '\n').last();
        assert(l == q.push(u.last()));
        let n = u.len() - i;
        assert(l.subrange(l.len() - n, l.len() as int) =~= q.subrange(
            q.len() - (n - 1),
            q.len() as int,
        ).push(u.last()));
        assert(u.subrange(i, u.len() as int) =~= t.subrange(i, t.len() as int).push(u.last()));
    }
}

/// What stands in a text without a line break in it stands in one of its parts.
#[verifier::spinoff_prover]
proof fn lemma_run_is_in_a_part(u: Seq<char>, i: int, j: int) -> (r: (int, int))
    requires
        0 <= i <= j <= u.len(),
        forall|k: int| i <= k < j ==> u[k] != '\n',
    ensures
        ({
            let p = text::pieces(u, '\n');
            let (k, a) = r;
            &&& 0 <= k < p.len()
            &&& 0 <= a <= a + (j - i) <= p[k].len()
            &&& p[k].subrange(a, a + (j - i)) == u.subrange(i, j)
        }),
    decreases u.len(),
{
    let p = text::pieces(u, '\n');
    text::lemma_pieces_nonempty(u, '\n');
    if j == u.len() {
        lemma_end_is_in_last_part(u, i);
        assert(p[p.len() - 1] == p.last());
        (p.len() - 1, p.last().len() - (j - i))
    } else {
        let t = u.drop_last();
        let q = text::pieces(t, '\n');
        text::lemma_pieces_nonempty(t, '\n');
        let (k, a) = lemma_run_is_in_a_part(t, i, j);
        assert(t.subrange(i, j) =~= u.subrange(i, j));
        if u.last() == '\n' {
            assert(p[k] == q[k]);
        } else if k < q.len() - 1 {
            assert(p[k] == q[k]);
        } else {
            assert(p[k] == q[k].push(u.last()));
            assert(p[k].subrange(a, a + (j - i)) =~= q[k].subrange(a, a + (j - i)));
        }
        (k, a)
    }
}

/// A run of characters without white space stands in one line.
#[verifier::spinoff_prover]
proof fn lemma_run_is_in_a_line(u: Seq<char>, i: int, j: int) -> (r: (int, int))
    requires
        0 <= i < j <= u.len(),
        is_unbroken(u.subrange(i, j)),
    ensures
        ({
            let l = text::text_lines(u);
            let (k, a) = r;
            &&& 0 <= k < l.len()
            &&& 0 <= a <= a + (j - i) <= l[k].len()
            &&& l[k].subrange(a, a + (j - i)) == u.subrange(i, j)
        }),
{
    let run = u.subrange(i, j);
    assert forall|k: int| i <= k < j implies u[k] != '\n' by {
        assert(run[k - i] == u[k]);
    }
    let (k, a) = lemma_run_is_in_a_part(u, i, j);
    let p = text::pieces(u, '\n');
    let l = text::text_lines(u);
    laws::law_lines_are_what_stands_between_breaks(u);
    text::lemma_pieces_nonempty(u, '\n');
    let n = j - i;
    assert(p[k].subrange(a, a + n)[n - 1] == run[n - 1]);
    assert(p[k][a + n - 1] == run[n - 1]);
    assert(!text::is_space(run[n - 1]));
    assert(p[k].len() > 0);
    if k < p.len() - 1 {
        if p[k][p[k].len() - 1] == '\r' {
            assert(p[k] == l[k].push('\r'));
            assert(a + n <= l[k].len());
            assert(l[k].subrange(a, a + n) =~= p[k].subrange(a, a + n));
        } else {
            assert(l[k] == p[k]);
        }
    } else {
        assert(l.len() == p.len());
    }
    (k, a)
}

/// No word is broken: at the size chosen, unless it is the smallest, no run of characters
/// without white space in what is shown is wider than the padding leaves of the frame.
#[verifier::spinoff_prover]
pub proof fn law_no_word_is_broken(
    s: SceneView,
    now: Timestamp,
    c: Config,
    invert: bool,
    u: Seq<char>,
    i: int,
    j: int,
)
    requires
        s.content is Text,
        config::config_fault(c) is None,
        forall|k: int| 0 <= k < s.content->text.len() ==> s.content->text[k] != '\0',
        markup::shown_text(render::derived(s, now, c, invert).text_markup) == Some(u),
        text_px(s, now, c, invert) > 8,
        0 <= i < j <= u.len(),
        is_unbroken(u.subrange(i, j)),
    ensures
        text_px(s, now, c, invert) * advance(u.subrange(i, j)) <= 100 * room(
            c.display.width,
            c.display.padding_x,
        ),
{
    let px = text_px(s, now, c, invert);
    let w = room(c.display.width, c.display.padding_x);
    let run = u.subrange(i, j);
    lemma_shown_is_displayed(s, now, c, invert, u);
    lemma_text_px(s, now, c, invert);
    lemma_px_is_valid(s, now, c, invert);
    layout::law_clamping_bounds_the_display(s.content->text);
    let (k, a) = lemma_run_is_in_a_line(u, i, j);
    let lines = render::fit_lines(s.content, now);
    let line = text::text_lines(u)[k];
    assert(lines[k] == (FitLineView { text: line, scale: Scale::Full }));
    assert(layout::word_fits(lines[k], px, w));
    lemma_runs_within_widest(line, a, a + (j - i));
    let e = layout::em_px(px, Scale::Full);
    layout::lemma_em_px(px, Scale::Full);
    layout::lemma_text_width(run);
    double::lemma_product_grows(layout::text_width(run), e, layout::widest_word(line), e);
    law_width_decides_what_fits(run, px, Scale::Full, w);
    lemma_in_hundreds(px, advance(run), w);
}

#[verifier::spinoff_prover]
proof fn lemma_in_hundreds(px: int, a: int, w: int)
    ensures
        100 * px * a <= 10_000 * w ==> px * a <= 100 * w,
        100 * px * a >= 10_000 * w ==> px * a >= 100 * w,
{
    assert(100 * px * a == 100 * (px * a)) by (nonlinear_arith);
}

#[verifier::spinoff_prover]
proof fn lemma_px_is_valid(s: SceneView, now: Timestamp, c: Config, invert: bool)
    requires
        config::config_fault(c) is None,
    ensures
        8 <= text_px(s, now, c, invert) <= config::max_px_of(c.display.font@) <= 2000,
        room(c.display.width, c.display.padding_x) <= 7680,
        room(c.display.height, c.display.padding_y) <= 4320,
{
    let d = c.display;
    lemma_text_px(s, now, c, invert);
    layout::lemma_fitted(
        render::fit_lines(s.content, now),
        config::max_px_of(d.font@),
        render::usable(d.width, d.padding_x),
        render::usable(d.height, d.padding_y),
    );
}

#[verifier::spinoff_prover]
proof fn lemma_next_size_does_not_fit(
    lines: Seq<FitLineView>,
    lo: int,
    hi: int,
    usable_w: int,
    usable_h: int,
)
    requires
        lo <= hi,
    ensures
        ({
            let px = layout::bisected(lines, lo, hi, usable_w, usable_h);
            lo <= px <= hi && (px < hi ==> !layout::fits(lines, px + 1, usable_w, usable_h))
        }),
    decreases hi - lo,
{
    if lo < hi {
        let mid = (lo + hi + 1) / 2;
        if layout::fits(lines, mid, usable_w, usable_h) {
            lemma_next_size_does_not_fit(lines, mid, hi, usable_w, usable_h);
        } else {
            lemma_next_size_does_not_fit(lines, lo, mid - 1, usable_w, usable_h);
        }
    }
}

/// Whether some run of characters without white space in a line is `wide` hundredths of
/// an em or more at this size.
pub open spec fn has_word_of(line: Seq<char>, px: int, wide: int) -> bool {
    exists|a: int, b: int|
        0 <= a <= b <= line.len() && is_unbroken(#[trigger] line.subrange(a, b)) && px * advance(
            line.subrange(a, b),
        ) >= wide
}

/// Text is no smaller than it has to be: where the size chosen is below the configured
/// one, a pixel more would make some word as wide as the padding leaves of the frame or
/// more, or the lines as tall or more.
#[verifier::spinoff_prover]
pub proof fn law_text_is_as_large_as_fits(
    s: SceneView,
    now: Timestamp,
    c: Config,
    invert: bool,
    u: Seq<char>,
)
    requires
        s.content is Text,
        config::config_fault(c) is None,
        forall|k: int| 0 <= k < s.content->text.len() ==> s.content->text[k] != '\0',
        markup::shown_text(render::derived(s, now, c, invert).text_markup) == Some(u),
    ensures
        ({
            let px = text_px(s, now, c, invert);
            let max = config::max_px_of(c.display.font@);
            let w = room(c.display.width, c.display.padding_x);
            let h = room(c.display.height, c.display.padding_y);
            let lines = text::text_lines(u);
            &&& px <= max
            &&& px < max ==> {
                ||| exists|k: int|
                    0 <= k < lines.len() && has_word_of(#[trigger] lines[k], px + 1, 100 * w)
                ||| 5 * (px + 1) * rendered_lines(lines, Scale::Full, px + 1, w) >= 4 * h
            }
        }),
{
    let px = text_px(s, now, c, invert);
    let max = config::max_px_of(c.display.font@);
    let w = room(c.display.width, c.display.padding_x);
    let h = room(c.display.height, c.display.padding_y);
    lemma_shown_is_displayed(s, now, c, invert, u);
    lemma_text_px(s, now, c, invert);
    lemma_px_is_valid(s, now, c, invert);
    layout::law_clamping_bounds_the_display(s.content->text);
    let lines = render::fit_lines(s.content, now);
    let parts = text::text_lines(u);
    render::lemma_fit_lines(s.content, now);
    if px < max {
        let next = px + 1;
        lemma_next_size_does_not_fit(lines, layout::MIN_FONT_PX as int, max, w, h);
        assert(!layout::fits(lines, next, w, h));
        assert forall|i: int| 0 <= i < lines.len() implies layout::measurable(
            #[trigger] lines[i],
            next,
            w,
        ) by {
            assert(lines[i].text.len() <= layout::MAX_DISPLAY_CHARS + 1);
        }
        assert forall|i: int| 0 <= i < parts.len() implies (#[trigger] parts[i]).len() <= 4001 by {
            assert(lines[i].text == parts[i]);
        }
        if layout::height(lines, next, w) > h * layout::PIXEL {
            lemma_height_decides(lines, next, w, h);
            lemma_quarters_of_text(parts, Scale::Full, next, w);
        } else {
            let k = choose|k: int|
                0 <= k < lines.len() && !layout::word_fits(#[trigger] lines[k], next, w);
            assert(!layout::word_fits(lines[k], next, w));
            let line = parts[k];
            assert(lines[k].text == line);
            let (a, b) = lemma_widest_is_a_run(line);
            let run = line.subrange(a, b);
            law_width_decides_what_fits(run, next, Scale::Full, w);
            lemma_in_hundreds(next, advance(run), w);
            assert(has_word_of(parts[k], next, 100 * w));
        }
    }
}

/// The configured size bounds the size of the text, and so does the smallest there is.
#[verifier::spinoff_prover]
pub proof fn law_size_is_within_bounds(s: SceneView, now: Timestamp, c: Config, invert: bool)
    ensures
        8 <= text_px(s, now, c, invert),
        config::max_px_of(c.display.font@) >= 8 ==> text_px(s, now, c, invert)
            <= config::max_px_of(c.display.font@),
        config::max_px_of(c.display.font@) < 8 ==> text_px(s, now, c, invert) == 8,
        text_px(s, now, c, true) == text_px(s, now, c, false),
{
    lemma_text_px(s, now, c, invert);
    lemma_text_px(s, now, c, true);
    lemma_text_px(s, now, c, false);
    let d = c.display;
    layout::lemma_fitted(
        render::fit_lines(s.content, now),
        config::max_px_of(d.font@),
        render::usable(d.width, d.padding_x),
        render::usable(d.height, d.padding_y),
    );
}

/// The lines of a label, as much as is displayed of it.
pub open spec fn label_lines(label: Option<Seq<char>>) -> Seq<Seq<char>> {
    match label {
        Some(l) => text::text_lines(layout::clamped(l)),
        None => Seq::empty(),
    }
}

/// A countdown's digits and the words of its label are not broken either, nor is it
/// smaller than it has to be.
#[verifier::spinoff_prover]
pub proof fn law_countdown_is_as_large_as_fits(
    s: SceneView,
    now: Timestamp,
    c: Config,
    invert: bool,
)
    requires
        s.content is Countdown,
        config::config_fault(c) is None,
    ensures
        ({
            let px = text_px(s, now, c, invert);
            let max = config::max_px_of(c.display.font@);
            let w = room(c.display.width, c.display.padding_x);
            let h = room(c.display.height, c.display.padding_y);
            let digits = scene::countdown_text(scene::secs_shown(s.content->target, now));
            let above = label_lines(s.content->label);
            &&& px <= max
            &&& px > 8 ==> px * advance(digits) <= 100 * w
            &&& px > 8 ==> forall|k: int, a: int, b: int|
                0 <= k < above.len() && 0 <= a <= b <= above[k].len() && is_unbroken(
                    #[trigger] above[k].subrange(a, b),
                ) ==> 60 * px * advance(above[k].subrange(a, b)) <= 10_000 * w
            &&& px < max ==> {
                ||| (px + 1) * advance(digits) >= 100 * w
                ||| exists|k: int|
                    0 <= k < above.len() && has_word_of(
                        #[trigger] above[k],
                        60 * (px + 1),
                        10_000 * w,
                    )
                ||| 3 * (px + 1) * rendered_lines(above, Scale::Label, px + 1, w) + 5 * (px + 1)
                    * rendered_lines(seq![digits], Scale::Full, px + 1, w) >= 4 * h
            }
        }),
{
    let px = text_px(s, now, c, invert);
    let max = config::max_px_of(c.display.font@);
    let w = room(c.display.width, c.display.padding_x);
    let h = room(c.display.height, c.display.padding_y);
    let digits = scene::countdown_text(scene::secs_shown(s.content->target, now));
    let above = label_lines(s.content->label);
    let lines = render::fit_lines(s.content, now);
    lemma_text_px(s, now, c, invert);
    lemma_px_is_valid(s, now, c, invert);
    render::lemma_fit_lines(s.content, now);
    render::lemma_digits_width(s.content->target, now);
    lemma_digits_are_one_word(s.content->target, now);
    lemma_countdown_lines(s.content, now);
    let n = above.len() as int;
    assert(lines[n].text == digits && lines[n].scale == Scale::Full);
    assert forall|k: int| 0 <= k < n implies (#[trigger] above[k]).len() <= 4001 && lines[k]
        == (FitLineView { text: above[k], scale: Scale::Label }) by {
        assert(lines[k].text.len() <= layout::MAX_DISPLAY_CHARS + 1);
    }
    if px > 8 {
        assert(layout::word_fits(lines[n], px, w));
        law_width_decides_what_fits(digits, px, Scale::Full, w);
        lemma_in_hundreds(px, advance(digits), w);
        assert forall|k: int, a: int, b: int|
            0 <= k < n && 0 <= a <= b <= above[k].len() && is_unbroken(
                #[trigger] above[k].subrange(a, b),
            ) implies 60 * px * advance(above[k].subrange(a, b)) <= 10_000 * w by {
            let line = above[k];
            let run = line.subrange(a, b);
            assert(layout::word_fits(lines[k], px, w));
            lemma_runs_within_widest(line, a, b);
            let e = layout::em_px(px, Scale::Label);
            layout::lemma_em_px(px, Scale::Label);
            layout::lemma_text_width(run);
            double::lemma_product_grows(layout::text_width(run), e, layout::widest_word(line), e);
            law_width_decides_what_fits(run, px, Scale::Label, w);
        }
    }
    if px < max {
        let next = px + 1;
        lemma_next_size_does_not_fit(lines, layout::MIN_FONT_PX as int, max, w, h);
        assert forall|i: int| 0 <= i < lines.len() implies layout::measurable(
            #[trigger] lines[i],
            next,
            w,
        ) by {
            assert(lines[i].text.len() <= layout::MAX_DISPLAY_CHARS + 1);
        }
        if layout::height(lines, next, w) > h * layout::PIXEL {
            lemma_height_decides(lines, next, w, h);
            lemma_countdown_height(s.content, now, next, w);
        } else {
            let k = choose|k: int|
                0 <= k < lines.len() && !layout::word_fits(#[trigger] lines[k], next, w);
            assert(!layout::word_fits(lines[k], next, w));
            if k == n {
                law_width_decides_what_fits(digits, next, Scale::Full, w);
                lemma_in_hundreds(next, advance(digits), w);
            } else {
                let line = above[k];
                let (a, b) = lemma_widest_is_a_run(line);
                law_width_decides_what_fits(line.subrange(a, b), next, Scale::Label, w);
                assert(has_word_of(above[k], 60 * next, 10_000 * w));
            }
        }
    }
}

#[verifier::spinoff_prover]
proof fn lemma_countdown_lines(content: ContentView, now: Timestamp)
    requires
        content is Countdown,
    ensures
        ({
            let lines = render::fit_lines(content, now);
            let digits = scene::countdown_text(scene::secs_shown(content->target, now));
            let above = label_lines(content->label);
            &&& lines.len() == above.len() + 1
            &&& lines == layout::scaled(above, Scale::Label).push(
                FitLineView { text: digits, scale: Scale::Full },
            )
        }),
{
    let lines = render::fit_lines(content, now);
    let digits = scene::countdown_text(scene::secs_shown(content->target, now));
    if content->label is None {
        assert(lines =~= layout::scaled(Seq::empty(), Scale::Label).push(
            FitLineView { text: digits, scale: Scale::Full },
        ));
    }
}

#[verifier::spinoff_prover]
proof fn lemma_countdown_height(content: ContentView, now: Timestamp, px: int, w: int)
    requires
        content is Countdown,
        0 <= px <= u32::MAX,
        w > 0,
    ensures
        ({
            let digits = scene::countdown_text(scene::secs_shown(content->target, now));
            let above = label_lines(content->label);
            quarters_tall(render::fit_lines(content, now), px, w) == 3 * px * rendered_lines(
                above,
                Scale::Label,
                px,
                w,
            ) + 5 * px * rendered_lines(seq![digits], Scale::Full, px, w)
        }),
{
    let lines = render::fit_lines(content, now);
    let digits = scene::countdown_text(scene::secs_shown(content->target, now));
    let above = label_lines(content->label);
    lemma_countdown_lines(content, now);
    render::lemma_fit_lines(content, now);
    assert(lines.drop_last() =~= layout::scaled(above, Scale::Label));
    assert forall|i: int| 0 <= i < above.len() implies (#[trigger] above[i]).len() <= 4001 by {
        assert(lines[i].text == above[i]);
        assert(lines[i].text.len() <= layout::MAX_DISPLAY_CHARS + 1);
    }
    lemma_quarters_of_text(above, Scale::Label, px, w);
    assert(seq![digits].drop_last() =~= Seq::<Seq<char>>::empty());
    assert(rendered_lines(seq![digits].drop_last(), Scale::Full, px, w) == 0);
    assert(lines.last().text == digits && lines.last().scale == Scale::Full);
}

/// The digits of a countdown are one word.
#[verifier::spinoff_prover]
proof fn lemma_digits_are_one_word(target: Timestamp, now: Timestamp)
    ensures
        ({
            let digits = scene::countdown_text(scene::secs_shown(target, now));
            layout::widest_word(digits) == layout::text_width(digits)
        }),
{
    let digits = scene::countdown_text(scene::secs_shown(target, now));
    render::lemma_countdown_is_clockwork(scene::secs_shown(target, now));
    assert forall|i: int| 0 <= i < digits.len() implies !text::is_space(#[trigger] digits[i]) by {
        assert(text::is_digit(digits[i]) || digits[i] == ':' || digits[i] == '-');
    }
    lemma_unbroken_is_one_word(digits);
}

#[verifier::spinoff_prover]
proof fn lemma_unbroken_is_one_word(s: Seq<char>)
    requires
        is_unbroken(s),
    ensures
        layout::widest_word(s) == layout::text_width(s),
        layout::run_width(s) == layout::text_width(s),
    decreases s.len(),
{
    if s.len() > 0 {
        let t = s.drop_last();
        assert forall|i: int| 0 <= i < t.len() implies !text::is_space(#[trigger] t[i]) by {
            assert(t[i] == s[i]);
        }
        assert(s[s.len() - 1] == s.last());
        lemma_unbroken_is_one_word(t);
        layout::lemma_text_width(t);
        layout::lemma_add_char(layout::text_width(t), s.last());
    }
}

/// The parts of two texts with a space between them are those of the one and then those
/// of the other.
#[verifier::spinoff_prover]
proof fn lemma_pieces_concat(a: Seq<char>, b: Seq<char>)
    ensures
        text::pieces(a + seq![' '] + b, ' ') == text::pieces(a, ' ') + text::pieces(b, ' '),
    decreases b.len(),
{
    let s = a + seq![' '] + b;
    let p = text::pieces(a, ' ');
    let q = text::pieces(b, ' ');
    text::lemma_pieces_nonempty(b, ' ');
    if b.len() == 0 {
        assert(s.drop_last() =~= a);
        assert(text::pieces(s, ' ') =~= p + q);
    } else {
        let c = b.drop_last();
        lemma_pieces_concat(a, c);
        assert(s.drop_last() =~= a + seq![' '] + c);
        assert(s.last() == b.last());
        text::lemma_pieces_nonempty(c, ' ');
        let before = p + text::pieces(c, ' ');
        assert(before.drop_last() =~= p + text::pieces(c, ' ').drop_last());
        assert(before.last() == text::pieces(c, ' ').last());
        assert(text::pieces(s, ' ') =~= p + q);
    }
}

/// Parts without a space in them are the parts of what they join to.
#[verifier::spinoff_prover]
proof fn lemma_pieces_of_joined(parts: Seq<Seq<char>>)
    requires
        parts.len() > 0,
        forall|i: int, j: int|
            0 <= i < parts.len() && 0 <= j < parts[i].len() ==> #[trigger] parts[i][j] != ' ',
    ensures
        text::pieces(laws::joined(parts, ' '), ' ') == parts,
    decreases parts.len(),
{
    let last = parts.last();
    assert(parts[parts.len() - 1] == last);
    assert forall|j: int| 0 <= j < last.len() implies #[trigger] last[j] != ' ' by {
        assert(parts[parts.len() - 1][j] != ' ');
    }
    lemma_one_piece(last);
    if parts.len() == 1 {
        assert(seq![last] =~= parts);
    } else {
        let before = parts.drop_last();
        assert forall|i: int, j: int|
            0 <= i < before.len() && 0 <= j < before[i].len() implies #[trigger] before[i][j]
            != ' ' by {
            assert(before[i] == parts[i]);
            assert(parts[i][j] != ' ');
        }
        lemma_pieces_of_joined(before);
        let front = laws::joined(before, ' ');
        lemma_pieces_concat(front, last);
        assert(front.push(' ') + last =~= front + seq![' '] + last);
        assert(before + seq![last] =~= parts);
    }
}

#[verifier::spinoff_prover]
proof fn lemma_one_piece(s: Seq<char>)
    requires
        forall|j: int| 0 <= j < s.len() ==> #[trigger] s[j] != ' ',
    ensures
        text::pieces(s, ' ') == seq![s],
    decreases s.len(),
{
    if s.len() > 0 {
        let t = s.drop_last();
        assert forall|j: int| 0 <= j < t.len() implies #[trigger] t[j] != ' ' by {
            assert(t[j] == s[j]);
        }
        lemma_one_piece(t);
        assert(s[s.len() - 1] == s.last());
        assert(seq![t].drop_last() =~= Seq::<Seq<char>>::empty());
        assert(t.push(s.last()) =~= s);
        assert(text::pieces(s, ' ') =~= seq![s]);
    } else {
        assert(s =~= Seq::<char>::empty());
    }
}

/// A wrap that has come no further stays so after one more word.
#[verifier::spinoff_prover]
proof fn lemma_place_keeps_order(x: Wrapped, y: Wrapped, w: int, gap: int, usable: int)
    requires
        layout::at_most(x, y),
        x.cur >= 0,
        y.cur >= 0,
        double::is_double(x.cur),
        double::is_double(y.cur),
        0 <= w <= usable,
        double::is_double(w),
        gap >= 0,
    ensures
        layout::at_most(layout::place(x, w, gap, usable), layout::place(y, w, gap, usable)),
        layout::place(x, w, gap, usable).cur >= 0,
        double::is_double(layout::place(x, w, gap, usable).cur),
{
    layout::lemma_line_with_word(x.cur, gap, w);
    layout::lemma_line_with_word(y.cur, gap, w);
    if x.lines == y.lines {
        layout::lemma_line_with_less(x.cur, y.cur, gap, gap, w, w);
    }
}

/// A first word takes what it is wide.
#[verifier::spinoff_prover]
proof fn lemma_first_word(word: Seq<char>, e: int, usable: int)
    requires
        e >= 0,
        double::is_factor(e),
        layout::word_width(word, e) <= usable,
    ensures
        layout::wrap(seq![word], e, usable) == (Wrapped {
            lines: 1,
            cur: layout::word_width(word, e),
        }),
{
    let w = layout::word_width(word, e);
    layout::lemma_word_width(word, 0, e);
    assert(seq![word].drop_last() =~= Seq::<Seq<char>>::empty());
    assert(layout::wrap(Seq::<Seq<char>>::empty(), e, usable) == (Wrapped { lines: 1, cur: 0 }));
    double::lemma_rounded(0);
    assert(seq![word].last() == word);
}

/// Words after others take no more lines than both by themselves.
#[verifier::spinoff_prover]
proof fn lemma_wrap_append(a: Seq<Seq<char>>, b: Seq<Seq<char>>, e: int, usable: int)
    requires
        b.len() > 0,
        e >= 0,
        double::is_factor(e),
        layout::words_fit(a, e, usable),
        layout::words_fit(b, e, usable),
    ensures
        layout::at_most(
            layout::wrap(a + b, e, usable),
            Wrapped {
                lines: layout::wrap(a, e, usable).lines + layout::wrap(b, e, usable).lines,
                cur: layout::wrap(b, e, usable).cur,
            },
        ),
    decreases b.len(),
{
    let all = a + b;
    let word = b.last();
    assert(b[b.len() - 1] == word);
    layout::lemma_wrap_shrinks(a, e, e, usable);
    layout::lemma_word_width(word, all.len() - 1, e);
    let w = layout::word_width(word, e);
    if b.len() == 1 {
        assert(b =~= seq![word]);
        lemma_first_word(word, e, usable);
        assert(all.drop_last() =~= a);
        assert(all.last() == word);
    } else {
        let c = b.drop_last();
        lemma_fit_front(b, e, usable);
        lemma_wrap_append(a, c, e, usable);
        assert(all.drop_last() =~= a + c);
        assert(all.last() == word);
        lemma_fit_both(a, c, e, usable);
        layout::lemma_wrap_shrinks(a + c, e, e, usable);
        layout::lemma_wrap_shrinks(c, e, e, usable);
        let n = layout::wrap(a, e, usable).lines;
        let y = layout::wrap(c, e, usable);
        let gap = layout::gap_before(1, e);
        lemma_place_keeps_order(
            layout::wrap(a + c, e, usable),
            Wrapped { lines: n + y.lines, cur: y.cur },
            w,
            gap,
            usable,
        );
        assert(layout::gap_before(all.len() - 1, e) == gap);
        assert(layout::gap_before(b.len() - 1, e) == gap);
    }
}

#[verifier::spinoff_prover]
proof fn lemma_fit_front(b: Seq<Seq<char>>, e: int, usable: int)
    requires
        b.len() > 0,
        layout::words_fit(b, e, usable),
    ensures
        layout::words_fit(b.drop_last(), e, usable),
{
    let c = b.drop_last();
    assert forall|i: int| 0 <= i < c.len() implies layout::word_width(#[trigger] c[i], e)
        <= usable by {
        assert(c[i] == b[i]);
    }
}

#[verifier::spinoff_prover]
proof fn lemma_fit_both(a: Seq<Seq<char>>, b: Seq<Seq<char>>, e: int, usable: int)
    requires
        layout::words_fit(a, e, usable),
        layout::words_fit(b, e, usable),
    ensures
        layout::words_fit(a + b, e, usable),
{
    let c = a + b;
    assert forall|i: int| 0 <= i < c.len() implies layout::word_width(#[trigger] c[i], e)
        <= usable by {
        if i < a.len() {
            assert(c[i] == a[i]);
        } else {
            assert(c[i] == b[i - a.len()]);
        }
    }
}

/// The last line of a wrap is some of the last words, by themselves.
#[verifier::spinoff_prover]
proof fn lemma_last_line(words: Seq<Seq<char>>, e: int, usable: int) -> (j: int)
    requires
        words.len() > 0,
        e >= 0,
        double::is_factor(e),
        layout::words_fit(words, e, usable),
    ensures
        0 <= j < words.len(),
        layout::wrap(words.skip(j), e, usable) == (Wrapped {
            lines: 1,
            cur: layout::wrap(words, e, usable).cur,
        }),
        j == 0 ==> layout::wrap(words, e, usable).lines == 1,
        j > 0 ==> layout::wrap(words.take(j), e, usable).lines == layout::wrap(
            words,
            e,
            usable,
        ).lines - 1,
    decreases words.len(),
{
    let word = words.last();
    let n = words.len() as int;
    assert(words[n - 1] == word);
    if n == 1 {
        assert(words =~= seq![word]);
        assert(words.skip(0) =~= words);
        lemma_first_word(word, e, usable);
        0
    } else {
        let before = words.drop_last();
        lemma_fit_front(words, e, usable);
        let at = layout::wrap(before, e, usable);
        let w = layout::word_width(word, e);
        let gap = layout::gap_before(n - 1, e);
        if double::rounded(double::rounded(at.cur + gap) + w) <= usable {
            let j = lemma_last_line(before, e, usable);
            let tail = words.skip(j);
            assert(tail.drop_last() =~= before.skip(j));
            assert(tail.last() == word);
            assert(layout::gap_before(tail.len() - 1, e) == gap);
            assert(words.take(j) =~= before.take(j));
            j
        } else {
            assert(words.skip(n - 1) =~= seq![word]);
            assert(words.take(n - 1) =~= before);
            lemma_first_word(word, e, usable);
            n - 1
        }
    }
}

/// Whether each part of a line that spaces separate fits in the frame by itself.
pub open spec fn parts_fit(s: Seq<char>, px: int, scale: Scale, usable_w: int) -> bool {
    layout::line_pieces_fit(FitLineView { text: s, scale }, px, usable_w)
}

#[verifier::spinoff_prover]
proof fn lemma_parts_fit(s: Seq<char>, px: int, scale: Scale, usable_w: int)
    requires
        parts_fit(s, px, scale, usable_w),
    ensures
        layout::words_fit(
            text::pieces(s, ' '),
            layout::em_px(px, scale),
            usable_w * layout::PIXEL,
        ),
{
    let line = FitLineView { text: s, scale };
    let words = text::pieces(s, ' ');
    assert forall|i: int| 0 <= i < words.len() implies layout::word_width(
        #[trigger] words[i],
        layout::em_px(px, scale),
    ) <= usable_w * layout::PIXEL by {
        assert(text::pieces(line.text, ' ')[i] == words[i]);
        assert(layout::word_width(text::pieces(line.text, ' ')[i], layout::line_em(line, px))
            <= usable_w * layout::PIXEL);
    }
}

/// How many lines a line of text takes.
pub open spec fn lines_taken(s: Seq<char>, px: int, scale: Scale, usable_w: int) -> int {
    layout::wrapped_lines(s, layout::em_px(px, scale), usable_w)
}

/// A text takes no more lines than its two halves do by themselves; so it takes no more
/// than it can be broken into that each fit.
#[verifier::spinoff_prover]
pub proof fn law_wrapping_takes_no_more_lines_than_needed(
    a: Seq<char>,
    b: Seq<char>,
    px: int,
    scale: Scale,
    usable_w: int,
)
    requires
        px >= 0,
        usable_w > 0,
        parts_fit(a, px, scale, usable_w),
        parts_fit(b, px, scale, usable_w),
    ensures
        lines_taken(a + seq![' '] + b, px, scale, usable_w) <= lines_taken(
            a,
            px,
            scale,
            usable_w,
        ) + lines_taken(b, px, scale, usable_w),
        parts_fit(a + seq![' '] + b, px, scale, usable_w),
{
    let e = layout::em_px(px, scale);
    let usable = usable_w * layout::PIXEL;
    layout::lemma_em_px(px, scale);
    text::lemma_pieces_nonempty(b, ' ');
    lemma_pieces_concat(a, b);
    let p = text::pieces(a, ' ');
    let q = text::pieces(b, ' ');
    lemma_parts_fit(a, px, scale, usable_w);
    lemma_parts_fit(b, px, scale, usable_w);
    lemma_fit_both(p, q, e, usable);
    lemma_wrap_append(p, q, e, usable);
    let s = a + seq![' '] + b;
    assert forall|i: int| 0 <= i < text::pieces(s, ' ').len() implies layout::word_width(
        #[trigger] text::pieces(s, ' ')[i],
        e,
    ) <= usable_w * layout::PIXEL by {
        assert((p + q)[i] == text::pieces(s, ' ')[i]);
    }
}

/// A text that takes more than one line breaks at a space into one that takes one line
/// less and one that takes one; so it can be broken into as many as it takes.
#[verifier::spinoff_prover]
pub proof fn law_wrapping_breaks_at_spaces(
    s: Seq<char>,
    px: int,
    scale: Scale,
    usable_w: int,
) -> (r: (Seq<char>, Seq<char>))
    requires
        px >= 0,
        usable_w > 0,
        parts_fit(s, px, scale, usable_w),
        lines_taken(s, px, scale, usable_w) > 1,
    ensures
        s == r.0 + seq![' '] + r.1,
        lines_taken(r.0, px, scale, usable_w) == lines_taken(s, px, scale, usable_w) - 1,
        lines_taken(r.1, px, scale, usable_w) == 1,
        parts_fit(r.0, px, scale, usable_w),
        parts_fit(r.1, px, scale, usable_w),
{
    let e = layout::em_px(px, scale);
    let usable = usable_w * layout::PIXEL;
    layout::lemma_em_px(px, scale);
    let words = text::pieces(s, ' ');
    laws::law_parts_join_to_the_text(s, ' ');
    lemma_parts_fit(s, px, scale, usable_w);
    let j = lemma_last_line(words, e, usable);
    let front = words.take(j);
    let back = words.skip(j);
    assert forall|i: int, k: int|
        0 <= i < front.len() && 0 <= k < front[i].len() implies #[trigger] front[i][k] != ' ' by {
        assert(words[i][k] != ' ');
    }
    assert forall|i: int, k: int|
        0 <= i < back.len() && 0 <= k < back[i].len() implies #[trigger] back[i][k] != ' ' by {
        assert(words[i + j][k] != ' ');
    }
    lemma_pieces_of_joined(front);
    lemma_pieces_of_joined(back);
    let a = laws::joined(front, ' ');
    let b = laws::joined(back, ' ');
    lemma_pieces_concat(a, b);
    assert(front + back =~= words);
    laws::law_parts_join_to_the_text(a + seq![' '] + b, ' ');
    assert forall|i: int| 0 <= i < text::pieces(a, ' ').len() implies layout::word_width(
        #[trigger] text::pieces(a, ' ')[i],
        e,
    ) <= usable_w * layout::PIXEL by {
        assert(words[i] == text::pieces(a, ' ')[i]);
    }
    assert forall|i: int| 0 <= i < text::pieces(b, ' ').len() implies layout::word_width(
        #[trigger] text::pieces(b, ' ')[i],
        e,
    ) <= usable_w * layout::PIXEL by {
        assert(words[i + j] == text::pieces(b, ' ')[i]);
    }
    (a, b)
}

/// How many characters `words` and the spaces between them are.
pub open spec fn chars_in(words: Seq<Seq<char>>) -> int
    decreases words.len(),
{
    if words.len() == 0 {
        0
    } else {
        chars_in(words.drop_last()) + words.last().len() + (if words.len() == 1 {
            0int
        } else {
            1int
        })
    }
}

/// How wide `words` and the spaces between them are, in hundredths of an em.
pub open spec fn advance_of(words: Seq<Seq<char>>) -> int
    decreases words.len(),
{
    if words.len() == 0 {
        0
    } else {
        advance_of(words.drop_last()) + advance(words.last()) + (if words.len() == 1 {
            0int
        } else {
            30int
        })
    }
}

#[verifier::spinoff_prover]
proof fn lemma_words_are_the_text(s: Seq<char>)
    ensures
        chars_in(text::pieces(s, ' ')) == s.len(),
        advance_of(text::pieces(s, ' ')) == advance(s),
    decreases s.len(),
{
    let p = text::pieces(s, ' ');
    if s.len() == 0 {
        assert(p.drop_last() =~= Seq::<Seq<char>>::empty());
        assert(chars_in(p.drop_last()) == 0 && advance_of(p.drop_last()) == 0);
        assert(advance(p.last()) == 0);
    } else {
        let t = s.drop_last();
        let q = text::pieces(t, ' ');
        text::lemma_pieces_nonempty(t, ' ');
        lemma_words_are_the_text(t);
        if s.last() == ' ' {
            assert(p.drop_last() =~= q);
            assert(advance(p.last()) == 0);
        } else {
            assert(p.drop_last() =~= q.drop_last());
            assert(p.last() == q.last().push(s.last()));
            assert(p.last().drop_last() =~= q.last());
        }
    }
}

#[verifier::spinoff_prover]
proof fn lemma_counts_grow(words: Seq<Seq<char>>, k: int)
    requires
        0 <= k <= words.len(),
        chars_in(words) <= 4001,
    ensures
        0 <= chars_in(words.take(k)) <= chars_in(words),
        0 <= advance_of(words.take(k)) <= advance_of(words),
        forall|i: int| 0 <= i < words.len() ==> (#[trigger] words[i]).len() <= chars_in(words),
        words.len() <= chars_in(words) + 1,
        advance_of(words) <= 130 * chars_in(words),
    decreases words.len(),
{
    assert(words.take(words.len() as int) =~= words);
    lemma_counts_are_positive(words);
    if words.len() > 0 {
        let before = words.drop_last();
        lemma_counts_are_positive(before);
        let last = words.last();
        lemma_advance_positive(last);
        if k < words.len() {
            lemma_counts_grow(before, k);
            assert(before.take(k) =~= words.take(k));
        } else {
            lemma_counts_grow(before, before.len() as int);
        }
        assert forall|i: int| 0 <= i < words.len() implies (#[trigger] words[i]).len() <= chars_in(
            words,
        ) by {
            if i < before.len() {
                assert(before[i] == words[i]);
            }
        }
    }
}

#[verifier::spinoff_prover]
proof fn lemma_counts_are_positive(words: Seq<Seq<char>>)
    ensures
        chars_in(words) >= 0,
        advance_of(words) >= 0,
    decreases words.len(),
{
    if words.len() > 0 {
        lemma_counts_are_positive(words.drop_last());
        lemma_advance_positive(words.last());
    }
}

#[verifier::spinoff_prover]
proof fn lemma_advance_positive(s: Seq<char>)
    ensures
        0 <= advance(s) <= 130 * s.len(),
    decreases s.len(),
{
    if s.len() > 0 {
        lemma_advance_positive(s.drop_last());
    }
}

/// Whether a length on screen is near what `wide` ten-thousandths of a pixel come to, to
/// within `off`. Lengths are in units of 2^-56 pixels; both sides are taken ten thousand
/// times 2^52 as large, which keeps them whole.
spec fn is_near(len: int, wide: int, off: int) -> bool {
    -off <= 45_035_996_273_704_960_000 * len - wide * 0x1000_0000_0000_0000_0000_0000_0000 <= off
}

/// A word on screen is as wide as its characters side by side, all but rounding.
#[verifier::spinoff_prover]
proof fn lemma_word_is_near(word: Seq<char>, px: int, scale: Scale)
    requires
        word.len() <= 4001,
        0 <= px <= 2000,
    ensures
        is_near(
            layout::word_width(word, layout::em_px(px, scale)),
            percent(scale) * px * advance(word),
            (word.len() as int) * 0x2000_0000_0000_0000_0000_0000,
        ),
        layout::word_width(word, layout::em_px(px, scale)) >= 0,
{
    let t = layout::text_width(word);
    let e = layout::em_px(px, scale);
    let a = advance(word);
    let q = percent(scale) * px;
    let n = word.len() as int;
    let unit = 0x40_0000_0000_0000int;
    law_texts_are_as_wide_as_their_characters(word);
    law_ems_are_as_large_as_asked(px, scale);
    layout::lemma_text_width(word);
    layout::lemma_em_px(px, scale);
    double::lemma_product(t, e);
    lemma_mul_nonnegative(t, e);
    double::lemma_rounded(t * e);
    assert(0 <= q <= 200_000);
    let f = 100 * t - a * unit;
    let g = 100 * e - q * unit;
    let x = n * 1_638_400;
    let c = 100 * e;
    let b = a * unit;
    let cmax = 3_602_879_701_896_397_400_000int;
    assert(c <= cmax);
    assert(-(x * cmax) <= f * c <= x * cmax) by (nonlinear_arith)
        requires
            -x <= f <= x,
            0 <= c <= cmax,
    ;
    let bmax = n * 2_341_871_806_232_657_920;
    assert(0 <= b <= bmax);
    assert(-(bmax * 600_000) <= b * g <= bmax * 600_000) by (nonlinear_arith)
        requires
            0 <= b <= bmax,
            -600_000 <= g <= 600_000,
    ;
    assert(x * cmax == n * (1_638_400 * 3_602_879_701_896_397_400_000)) by (nonlinear_arith)
        requires
            x == n * 1_638_400,
            cmax == 3_602_879_701_896_397_400_000,
    ;
    assert((100 * t) * (100 * e) - b * (q * unit) == f * c + b * g) by (nonlinear_arith)
        requires
            f == 100 * t - b,
            g == 100 * e - q * unit,
            c == 100 * e,
    ;
    assert(10_000 * (t * e) == (100 * t) * (100 * e)) by (nonlinear_arith);
    assert(b * (q * unit) == (q * a) * 0x1000_0000_0000_0000_0000_0000_0000) by (nonlinear_arith)
        requires
            b == a * unit,
            unit == 0x40_0000_0000_0000,
    ;
    assert(0 <= q * a <= 26_000_000 * n) by (nonlinear_arith)
        requires
            0 <= q <= 200_000,
            0 <= a <= 130 * n,
    ;
    assert(percent(scale) * px * a == q * a);
}

/// So is the space before a word.
#[verifier::spinoff_prover]
proof fn lemma_gap_is_near(i: int, px: int, scale: Scale)
    requires
        0 <= px <= 2000,
    ensures
        ({
            let gap = layout::gap_before(i, layout::em_px(px, scale));
            &&& i == 0 ==> gap == 0
            &&& i != 0 ==> is_near(gap, percent(scale) * px * 30, 0x2000_0000_0000_0000_0000_0000)
            &&& 0 <= gap <= 601 * layout::PIXEL
        }),
{
    let e = layout::em_px(px, scale);
    if i != 0 {
        let space = seq![' '];
        assert(space.drop_last() =~= Seq::<char>::empty());
        assert(space.last() == ' ');
        assert(layout::text_width(Seq::<char>::empty()) == 0);
        assert(advance(Seq::<char>::empty()) == 0);
        assert(advance(space) == 30);
        double::lemma_rounded(layout::SPACE_EM as int);
        assert(layout::text_width(space) == layout::SPACE_EM);
        lemma_word_is_near(space, px, scale);
        let q = percent(scale) * px;
        assert(0 <= q <= 200_000);
        assert(space.len() * 0x2000_0000_0000_0000_0000_0000 == 0x2000_0000_0000_0000_0000_0000);
        assert(percent(scale) * px * 30 == q * 30);
    }
}

/// Adding up a line rounds hardly at all.
#[verifier::spinoff_prover]
proof fn lemma_sum_is_near(cur: int, gap: int, w: int)
    requires
        0 <= cur <= 20_000 * layout::PIXEL,
        0 <= gap <= 601 * layout::PIXEL,
        0 <= w <= 10_000 * layout::PIXEL,
    ensures
        -0x400_0000_0000_0000_0000_0000 <= 45_035_996_273_704_960_000 * double::rounded(cur + double::rounded(gap + w)) - 45_035_996_273_704_960_000 * (cur + gap + w) <= 0x400_0000_0000_0000_0000_0000,
        -0x400_0000_0000_0000_0000_0000 <= 45_035_996_273_704_960_000 * double::rounded(double::rounded(cur + gap) + w) - 45_035_996_273_704_960_000 * (cur + gap + w) <= 0x400_0000_0000_0000_0000_0000,
        double::rounded(cur + double::rounded(gap + w)) >= 0,
{
    double::lemma_rounded(gap + w);
    double::lemma_rounded(cur + double::rounded(gap + w));
    double::lemma_rounded(cur + gap);
    double::lemma_rounded(double::rounded(cur + gap) + w);
}

#[verifier::spinoff_prover]
proof fn lemma_lines_at_least_one(words: Seq<Seq<char>>, e: int, usable: int)
    requires
        layout::words_fit(words, e, usable),
    ensures
        layout::wrap(words, e, usable).lines >= 1,
    decreases words.len(),
{
    if words.len() > 0 {
        lemma_fit_front(words, e, usable);
        lemma_lines_at_least_one(words.drop_last(), e, usable);
        assert(words[words.len() - 1] == words.last());
    }
}

/// One line of words is as wide as its characters side by side, all but rounding.
#[verifier::spinoff_prover]
proof fn lemma_line_is_near(words: Seq<Seq<char>>, px: int, scale: Scale, usable_w: int)
    requires
        0 <= px <= 2000,
        0 < usable_w <= 10_000,
        chars_in(words) <= 4001,
        layout::words_fit(words, layout::em_px(px, scale), usable_w * layout::PIXEL),
        layout::wrap(words, layout::em_px(px, scale), usable_w * layout::PIXEL).lines == 1,
    ensures
        ({
            let cur = layout::wrap(
                words,
                layout::em_px(px, scale),
                usable_w * layout::PIXEL,
            ).cur;
            &&& is_near(
                cur,
                percent(scale) * px * advance_of(words),
                chars_in(words) * 0x2000_0000_0000_0000_0000_0000 + words.len() * 0x400_0000_0000_0000_0000_0000,
            )
            &&& 0 <= cur <= 20_000 * layout::PIXEL
            &&& 45_035_996_273_704_960_000 * cur <= 45_035_996_273_704_960_000 * (usable_w * layout::PIXEL) + 4 * 0x400_0000_0000_0000_0000_0000
        }),
    decreases words.len(),
{
    let e = layout::em_px(px, scale);
    let usable = usable_w * layout::PIXEL;
    let q = percent(scale) * px;
    layout::lemma_em_px(px, scale);
    if words.len() > 0 {
        let before = words.drop_last();
        let word = words.last();
        let i = before.len() as int;
        assert(words[i] == word);
        lemma_counts_grow(words, words.len() as int);
        lemma_counts_are_positive(before);
        lemma_fit_front(words, e, usable);
        lemma_lines_at_least_one(before, e, usable);
        let at = layout::wrap(before, e, usable);
        let w = layout::word_width(word, e);
        let gap = layout::gap_before(i, e);
        assert(at.lines == 1);
        lemma_line_is_near(before, px, scale, usable_w);
        lemma_word_is_near(word, px, scale);
        lemma_gap_is_near(i, px, scale);
        lemma_sum_is_near(at.cur, gap, w);
        let spaces: int = if i == 0 {
            0
        } else {
            30
        };
        lemma_widths_add(q, advance_of(before), advance(word), spaces);
        if i == 0 {
            assert(q * spaces == 0);
        }
        assert(percent(scale) * px * 30 == q * 30);
    } else {
        assert(q * 0 == 0);
    }
}

#[verifier::spinoff_prover]
proof fn lemma_widths_add(q: int, a: int, b: int, c: int)
    ensures
        q * (a + b + c) == q * a + q * b + q * c,
{
    assert(q * (a + b + c) == q * a + q * b + q * c) by (nonlinear_arith);
}

/// Words that are narrower than the frame, side by side, take one line.
#[verifier::spinoff_prover]
proof fn lemma_narrow_words(words: Seq<Seq<char>>, px: int, scale: Scale, usable_w: int)
    requires
        0 <= px <= 2000,
        0 < usable_w <= 10_000,
        chars_in(words) <= 4001,
        layout::words_fit(words, layout::em_px(px, scale), usable_w * layout::PIXEL),
        percent(scale) * px * advance_of(words) < 10_000 * usable_w,
    ensures
        layout::wrap(words, layout::em_px(px, scale), usable_w * layout::PIXEL).lines == 1,
    decreases words.len(),
{
    let e = layout::em_px(px, scale);
    let usable = usable_w * layout::PIXEL;
    let q = percent(scale) * px;
    if words.len() > 0 {
        let before = words.drop_last();
        let word = words.last();
        let i = before.len() as int;
        assert(words[i] == word);
        lemma_counts_grow(words, words.len() as int);
        lemma_counts_are_positive(before);
        lemma_advance_positive(word);
        lemma_fit_front(words, e, usable);
        let spaces: int = if i == 0 {
            0
        } else {
            30
        };
        assert(0 <= q);
        lemma_widths_add(q, advance_of(before), advance(word), spaces);
        lemma_mul_nonnegative(q, advance(word));
        lemma_mul_nonnegative(q, spaces);
        lemma_narrow_words(before, px, scale, usable_w);
        lemma_line_is_near(before, px, scale, usable_w);
        lemma_word_is_near(word, px, scale);
        lemma_gap_is_near(i, px, scale);
        let at = layout::wrap(before, e, usable);
        let w = layout::word_width(word, e);
        let gap = layout::gap_before(i, e);
        lemma_sum_is_near(at.cur, gap, w);
        if i == 0 {
            assert(q * spaces == 0);
        }
        assert(percent(scale) * px * 30 == q * 30);
    }
}

/// A line takes one line on screen if its characters side by side are narrower than the
/// frame, and more if they are wider.
#[verifier::spinoff_prover]
pub proof fn law_width_decides_what_takes_one_line(
    s: Seq<char>,
    px: int,
    scale: Scale,
    usable_w: int,
)
    requires
        s.len() <= 4001,
        0 <= px <= 2000,
        0 < usable_w <= 10_000,
        parts_fit(s, px, scale, usable_w),
    ensures
        percent(scale) * px * advance(s) < 10_000 * usable_w ==> lines_taken(
            s,
            px,
            scale,
            usable_w,
        ) == 1,
        percent(scale) * px * advance(s) > 10_000 * usable_w ==> lines_taken(
            s,
            px,
            scale,
            usable_w,
        ) > 1,
{
    let e = layout::em_px(px, scale);
    let usable = usable_w * layout::PIXEL;
    let words = text::pieces(s, ' ');
    lemma_words_are_the_text(s);
    lemma_parts_fit(s, px, scale, usable_w);
    lemma_lines_at_least_one(words, e, usable);
    lemma_counts_grow(words, words.len() as int);
    if percent(scale) * px * advance(s) < 10_000 * usable_w {
        lemma_narrow_words(words, px, scale, usable_w);
    }
    if layout::wrap(words, e, usable).lines == 1 {
        lemma_line_is_near(words, px, scale, usable_w);
    }
}

/// Whether there is no space in `s`.
pub open spec fn is_one_part(s: Seq<char>) -> bool {
    forall|i: int| 0 <= i < s.len() ==> #[trigger] s[i] != ' '
}

/// A word wider than the frame takes as many lines as it fills, and what is left of it
/// stands on the last.
#[verifier::spinoff_prover]
proof fn lemma_broken_word(word: Seq<char>, px: int, scale: Scale, usable_w: int)
    requires
        word.len() <= 4001,
        0 <= px <= 2000,
        0 < usable_w <= 10_000,
        layout::word_width(word, layout::em_px(px, scale)) > usable_w * layout::PIXEL,
    ensures
        ({
            let w = layout::word_width(word, layout::em_px(px, scale));
            let usable = usable_w * layout::PIXEL;
            let at = layout::wrap(seq![word], layout::em_px(px, scale), usable);
            &&& at.lines == double::ceiling(double::quotient(w, usable))
            &&& at.lines >= 2
            &&& at.cur == w - ((at.lines - 1) * usable_w) * layout::PIXEL
            &&& 0 < at.cur <= usable
            &&& w < 0x20_0000_0000_0000 * layout::PIXEL
        }),
{
    let e = layout::em_px(px, scale);
    let w = layout::word_width(word, e);
    let usable = usable_w * layout::PIXEL;
    let q = percent(scale) * px;
    layout::lemma_em_px(px, scale);
    layout::lemma_word_width(word, 0, e);
    lemma_word_is_near(word, px, scale);
    lemma_advance_positive(word);
    assert(0 <= q <= 200_000);
    assert(q * advance(word) <= 200_000 * 520_130) by (nonlinear_arith)
        requires
            0 <= q <= 200_000,
            0 <= advance(word) <= 520_130,
    ;
    assert(percent(scale) * px * advance(word) == q * advance(word));
    layout::lemma_break(w, usable, usable_w);
    assert(seq![word].drop_last() =~= Seq::<Seq<char>>::empty());
    assert(layout::wrap(Seq::<Seq<char>>::empty(), e, usable) == (Wrapped { lines: 1, cur: 0 }));
    assert(seq![word].last() == word);
    let full = (w + usable - 1) / usable;
    assert((full - 1) * usable == ((full - 1) * usable_w) * layout::PIXEL) by (nonlinear_arith)
        requires
            usable == usable_w * layout::PIXEL,
    ;
}

/// Text without a space in it takes as many lines as its characters fill side by side.
#[verifier::spinoff_prover]
pub proof fn law_a_broken_part_takes_the_lines_it_fills(
    s: Seq<char>,
    px: int,
    scale: Scale,
    usable_w: int,
)
    requires
        s.len() <= 4001,
        0 <= px <= 2000,
        0 < usable_w <= 10_000,
        is_one_part(s),
    ensures
        ({
            let n = lines_taken(s, px, scale, usable_w);
            &&& n >= 1
            &&& percent(scale) * px * advance(s) <= 10_000 * (n * usable_w)
            &&& percent(scale) * px * advance(s) >= 10_000 * ((n - 1) * usable_w)
        }),
{
    let e = layout::em_px(px, scale);
    let w = layout::word_width(s, e);
    let usable = usable_w * layout::PIXEL;
    let q = percent(scale) * px;
    lemma_one_piece(s);
    layout::lemma_em_px(px, scale);
    lemma_word_is_near(s, px, scale);
    lemma_advance_positive(s);
    assert(0 <= q);
    lemma_mul_nonnegative(q, advance(s));
    assert(percent(scale) * px * advance(s) == q * advance(s));
    if w <= usable {
        lemma_first_word(s, e, usable);
        law_width_decides_what_fits(s, px, scale, usable_w);
    } else {
        lemma_broken_word(s, px, scale, usable_w);
        let n = lines_taken(s, px, scale, usable_w);
        let full = (n - 1) * usable_w;
        assert(n * usable_w == full + usable_w) by (nonlinear_arith)
            requires
                full == (n - 1) * usable_w,
        ;
    }
}

/// Something stands on the last line after a word that is not empty.
#[verifier::spinoff_prover]
proof fn lemma_line_is_begun(words: Seq<Seq<char>>, px: int, scale: Scale, usable_w: int)
    requires
        words.len() > 0,
        0 < words.last().len() <= 4001,
        1 <= px <= 2000,
        0 < usable_w <= 10_000,
        layout::wrap(
            words.drop_last(),
            layout::em_px(px, scale),
            usable_w * layout::PIXEL,
        ).cur >= 0,
    ensures
        layout::wrap(words, layout::em_px(px, scale), usable_w * layout::PIXEL).cur > 0,
{
    let e = layout::em_px(px, scale);
    let usable = usable_w * layout::PIXEL;
    let word = words.last();
    let w = layout::word_width(word, e);
    let q = percent(scale) * px;
    let at = layout::wrap(words.drop_last(), e, usable);
    let gap = layout::gap_before(words.len() - 1, e);
    layout::lemma_em_px(px, scale);
    layout::lemma_word_width(word, words.len() - 1, e);
    lemma_word_is_near(word, px, scale);
    lemma_advance_counts(word);
    assert(q >= 60);
    assert(q * advance(word) >= 60 * advance(word)) by (nonlinear_arith)
        requires
            q >= 60,
            advance(word) >= 0,
    ;
    assert(percent(scale) * px * advance(word) == q * advance(word));
    assert(w > 0);
    if w > usable {
        lemma_broken_word(word, px, scale, usable_w);
        layout::lemma_break(w, usable, usable_w);
    } else {
        double::lemma_rounded_bound(gap + w, w);
        double::lemma_rounded_bound(at.cur + double::rounded(gap + w), w);
    }
}

#[verifier::spinoff_prover]
proof fn lemma_advance_counts(s: Seq<char>)
    ensures
        advance(s) >= 30 * s.len(),
    decreases s.len(),
{
    if s.len() > 0 {
        lemma_advance_counts(s.drop_last());
    }
}

#[verifier::spinoff_prover]
proof fn lemma_last_piece(s: Seq<char>)
    ensures
        text::pieces(s, ' ').len() > 0,
        s.len() > 0 && s.last() != ' ' ==> text::pieces(s, ' ').last().len() > 0,
{
    text::lemma_pieces_nonempty(s, ' ');
    if s.len() > 0 && s.last() != ' ' {
        text::lemma_pieces_nonempty(s.drop_last(), ' ');
    }
}

/// A part wider than the frame starts on a line of its own, after any text.
#[verifier::spinoff_prover]
pub proof fn law_a_broken_part_starts_a_line(
    a: Seq<char>,
    s: Seq<char>,
    px: int,
    scale: Scale,
    usable_w: int,
)
    requires
        a.len() <= 4001,
        s.len() <= 4001,
        1 <= px <= 2000,
        0 < usable_w <= 10_000,
        is_one_part(s),
        percent(scale) * px * advance(s) > 10_000 * usable_w,
    ensures
        ({
            let n = lines_taken(a, px, scale, usable_w) + lines_taken(s, px, scale, usable_w);
            let all = lines_taken(a + seq![' '] + s, px, scale, usable_w);
            &&& n - 1 <= all <= n
            &&& a.len() > 0 && a.last() != ' ' ==> all == n
            &&& a.len() == 0 ==> all == n - 1
        }),
{
    let e = layout::em_px(px, scale);
    let usable = usable_w * layout::PIXEL;
    let words = text::pieces(a, ' ');
    lemma_one_piece(s);
    lemma_pieces_concat(a, s);
    lemma_last_piece(a);
    law_width_decides_what_fits(s, px, scale, usable_w);
    lemma_broken_word(s, px, scale, usable_w);
    let all = words + seq![s];
    assert(all.drop_last() =~= words);
    assert(all.last() == s);
    layout::lemma_em_px(px, scale);
    let line = FitLineView { text: a, scale };
    layout::lemma_in_reach(line, px, usable_w);
    layout::lemma_wrap_positive(words, e, usable, usable_w);
    if a.len() > 0 && a.last() != ' ' {
        layout::lemma_pieces_are_shorter(a, ' ');
        assert(words[words.len() - 1] == words.last());
        let before = words.drop_last();
        assert forall|i: int| 0 <= i < before.len() implies layout::word_width(
            #[trigger] before[i],
            e,
        ) < 0x20_0000_0000_0000 * layout::PIXEL || layout::word_width(before[i], e) <= usable by {
            assert(before[i] == words[i]);
            assert(text::pieces(line.text, ' ')[i] == words[i]);
        }
        layout::lemma_wrap_positive(before, e, usable, usable_w);
        lemma_line_is_begun(words, px, scale, usable_w);
    }
    if a.len() == 0 {
        lemma_one_piece(a);
        layout::lemma_word_width(a, 0, e);
        double::lemma_rounded(0);
        double::lemma_product(0, e);
        lemma_first_word(a, e, usable);
    }
}

/// Text goes on where a part wider than the frame ends, as long as there is room.
#[verifier::spinoff_prover]
pub proof fn law_text_goes_on_after_a_broken_part(
    s: Seq<char>,
    b: Seq<char>,
    px: int,
    scale: Scale,
    usable_w: int,
)
    requires
        s.len() <= 4001,
        b.len() <= 4001,
        1 <= px <= 2000,
        0 < usable_w <= 10_000,
        is_one_part(s),
        is_one_part(b),
        percent(scale) * px * advance(s) > 10_000 * usable_w,
        percent(scale) * px * advance(b) < 10_000 * usable_w,
    ensures
        ({
            let n = lines_taken(s, px, scale, usable_w);
            let all = lines_taken(s + seq![' '] + b, px, scale, usable_w);
            let wide = percent(scale) * px * (advance(s) + 30 + advance(b));
            &&& wide < 10_000 * (n * usable_w) ==> all == n
            &&& wide > 10_000 * (n * usable_w) ==> all == n + 1
        }),
{
    let e = layout::em_px(px, scale);
    let usable = usable_w * layout::PIXEL;
    let q = percent(scale) * px;
    lemma_one_piece(s);
    lemma_one_piece(b);
    lemma_pieces_concat(s, b);
    law_width_decides_what_fits(s, px, scale, usable_w);
    law_width_decides_what_fits(b, px, scale, usable_w);
    lemma_broken_word(s, px, scale, usable_w);
    lemma_word_is_near(s, px, scale);
    lemma_word_is_near(b, px, scale);
    lemma_gap_is_near(1, px, scale);
    layout::lemma_em_px(px, scale);
    layout::lemma_word_width(b, 1, e);
    let all = seq![s] + seq![b];
    assert(all.drop_last() =~= seq![s]);
    assert(all.last() == b);
    let at = layout::wrap(seq![s], e, usable);
    let gap = layout::gap_before(1, e);
    let w = layout::word_width(b, e);
    lemma_sum_is_near(at.cur, gap, w);
    lemma_widths_add(q, advance(s), 30, advance(b));
    assert(percent(scale) * px * advance(s) == q * advance(s));
    assert(percent(scale) * px * advance(b) == q * advance(b));
    assert(percent(scale) * px * 30 == q * 30);
    let n = at.lines;
    let full = (n - 1) * usable_w;
    assert(n * usable_w == full + usable_w) by (nonlinear_arith)
        requires
            full == (n - 1) * usable_w,
    ;
}

} // verus!
