//! How large the text can be: clamping, width estimates, greedy wrapping and the
//! search for the largest size whose layout fits.
//!
//! Sizes are what double-precision arithmetic makes of them, rounded wherever it
//! rounds, and held as whole numbers: character widths in units of 2^-54 em, an em in
//! units of 2^-54 pixels, widths and heights on screen in units of 2^-56 pixels.

use vstd::prelude::*;

use vstd::arithmetic::div_mod::*;
use vstd::arithmetic::mul::*;
use vstd::arithmetic::power2::*;

use crate::double;
use crate::text;

verus! {

/// No text is ever smaller than this.
pub const MIN_FONT_PX: u32 = 8;

/// Bounds on what reaches the renderer. A 1080p frame at `MIN_FONT_PX` fits this
/// much even in the worst glyph case; without a bound, thousands of newlines or
/// one enormous unbroken word build a layout no font size can fit, and an
/// over-tall layout is culled to a blank frame.
pub const MAX_DISPLAY_LINES: usize = 40;

pub const MAX_DISPLAY_CHARS: usize = 4_000;

/// How many line breaks `s` holds.
pub open spec fn newlines(s: Seq<char>) -> nat
    decreases s.len(),
{
    if s.len() == 0 {
        0
    } else {
        newlines(s.drop_last()) + (if s.last() == '\n' {
            1nat
        } else {
            0nat
        })
    }
}

/// Whether `s` is within the display bounds.
pub open spec fn displayable(s: Seq<char>) -> bool {
    s.len() <= MAX_DISPLAY_CHARS && newlines(s) < MAX_DISPLAY_LINES
}

/// The longest start of `s` that is within the display bounds.
pub open spec fn longest_displayable(s: Seq<char>) -> Seq<char>
    decreases s.len(),
{
    if displayable(s) || s.len() == 0 {
        s
    } else {
        longest_displayable(s.drop_last())
    }
}

/// `s` as it is displayed: itself if it is within bounds, else as much of it as
/// is and an ellipsis.
pub open spec fn clamped(s: Seq<char>) -> Seq<char> {
    if displayable(s) {
        s
    } else {
        longest_displayable(s).push('…')
    }
}

proof fn lemma_newlines_grow(s: Seq<char>, n: int)
    requires
        0 <= n <= s.len(),
    ensures
        newlines(s.take(n)) <= newlines(s),
    decreases s.len() - n,
{
    if n < s.len() {
        assert(s.take(n + 1).drop_last() =~= s.take(n));
        lemma_newlines_grow(s, n + 1);
    } else {
        assert(s.take(n) =~= s);
    }
}

proof fn lemma_longest_displayable(s: Seq<char>, n: int)
    requires
        0 <= n < s.len(),
        displayable(s.take(n)),
        !displayable(s.take(n + 1)),
    ensures
        !displayable(s),
        longest_displayable(s) == s.take(n),
    decreases s.len(),
{
    lemma_newlines_grow(s, n + 1);
    if n + 1 < s.len() {
        let t = s.drop_last();
        assert(t.take(n) =~= s.take(n));
        assert(t.take(n + 1) =~= s.take(n + 1));
        lemma_longest_displayable(t, n);
    } else {
        assert(s.take(n + 1) =~= s);
        assert(s.drop_last() =~= s.take(n));
        let t = s.take(n);
        assert(longest_displayable(t) == t);
    }
}

/// Truncate degenerate input for display, with an ellipsis. The scene keeps the
/// full text; only the on-screen string is clamped.
pub fn clamp_display(text: &str) -> (r: String)
    ensures
        r@ == clamped(text@),
{
    let v = text::chars_of(text);
    let mut lines: usize = 0;
    let mut out = String::new();
    assert(text@.take(0) =~= Seq::<char>::empty());
    for i in 0..v.len()
        invariant
            v@ == text@,
            out@ == text@.take(i as int),
            displayable(out@),
            lines == newlines(out@),
    {
        let c = v[i];
        proof {
            assert(text@.take(i + 1) =~= text@.take(i as int).push(c));
            assert(text@.take(i + 1).drop_last() =~= text@.take(i as int));
        }
        if c == '\n' {
            lines = lines + 1;
        }
        if i >= MAX_DISPLAY_CHARS || lines >= MAX_DISPLAY_LINES {
            proof {
                lemma_longest_displayable(text@, i as int);
            }
            out.push('…');
            return out;
        }
        out.push(c);
    }
    assert(text@.take(text@.len() as int) =~= text@);
    out
}

/// Clamping keeps what is within bounds, starts as the text does, and never hands
/// on more than the bounds and the ellipsis.
pub proof fn law_clamping_bounds_the_display(s: Seq<char>)
    ensures
        displayable(s) ==> clamped(s) == s,
        !displayable(s) ==> clamped(s).last() == '…' && clamped(s).drop_last().is_prefix_of(s),
        clamped(s).len() <= MAX_DISPLAY_CHARS + 1,
        newlines(clamped(s)) < MAX_DISPLAY_LINES,
{
    if !displayable(s) {
        lemma_longest_is_displayable(s);
        assert(clamped(s).drop_last() =~= longest_displayable(s));
    }
}

proof fn lemma_longest_is_displayable(s: Seq<char>)
    ensures
        displayable(longest_displayable(s)),
        longest_displayable(s).is_prefix_of(s),
    decreases s.len(),
{
    if s.len() > 0 && !displayable(s) {
        lemma_longest_is_displayable(s.drop_last());
    }
}

/// The advance assumed for a character, in units of 2^-54 em: 0.3, 0.4, 0.55, 1, 0.8
/// or 1.3 em, as doubles.
///
/// This is the per-character estimate for Inter Bold, deliberately on the wide
/// side of reality: overestimating width only makes text smaller, while
/// underestimating risks the whole layout being culled. Anything non-ASCII is
/// assumed very wide for the same reason.
pub open spec fn em(c: char) -> int {
    if c == ' ' {
        SPACE_EM as int
    } else if c == 'i' || c == 'I' || c == 'l' || c == 'j' || c == '!' || c == '.' || c == ',' || c
        == ':' || c == ';' || c == '\'' || c == '|' {
        0x19_9999_9999_999a
    } else if c == 'f' || c == 't' || c == 'r' || c == '-' || c == '(' || c == ')' || c == '[' || c
        == ']' || c == '"' {
        0x23_3333_3333_3334
    } else if c == 'm' || c == 'w' || c == 'M' || c == 'W' || c == '@' {
        0x40_0000_0000_0000
    } else if (c as int) < 128 {
        0x33_3333_3333_3334
    } else {
        0x53_3333_3333_3334
    }
}

/// The advance assumed for a space.
pub const SPACE_EM: u128 = 0x13_3333_3333_3333;

/// The width of `s` in units of 2^-54 em, summed from the front.
pub open spec fn text_width(s: Seq<char>) -> int
    decreases s.len(),
{
    if s.len() == 0 {
        0
    } else {
        double::rounded(text_width(s.drop_last()) + em(s.last()))
    }
}

/// The advance assumed for `c`, in units of 2^-54 em.
pub fn char_em(c: char) -> (r: u128)
    ensures
        r == em(c),
{
    match c {
        ' ' => SPACE_EM,
        'i' | 'I' | 'l' | 'j' | '!' | '.' | ',' | ':' | ';' | '\'' | '|' => 0x19_9999_9999_999a,
        'f' | 't' | 'r' | '-' | '(' | ')' | '[' | ']' | '"' => 0x23_3333_3333_3334,
        'm' | 'w' | 'M' | 'W' | '@' => 0x40_0000_0000_0000,
        _ => if (c as u32) < 128 {
            0x33_3333_3333_3334
        } else {
            0x53_3333_3333_3334
        },
    }
}

/// Adding a character to a width: a double again, no smaller, and by less than 1.31
/// em larger as long as it is no wider than a display of characters.
pub proof fn lemma_add_char(width: int, c: char)
    requires
        width >= 0,
        double::is_factor(width),
    ensures
        double::is_factor(double::rounded(width + em(c))),
        double::rounded(width + em(c)) >= width,
        double::rounded(width + em(c)) > 0,
        width <= 0x10_0000_0000_0000_0000 ==> double::rounded(width + em(c)) <= width
            + WIDEST_EM,
{
    let sum = width + em(c);
    double::lemma_rounded(sum);
    double::lemma_rounded_is_double(sum);
    double::lemma_rounded_bound(sum, width);
    double::lemma_rounded(0x10_0000_0000_0000);
    double::lemma_rounded_bound(sum, 0x10_0000_0000_0000);
}

/// No character adds more than this to a width: 1.31 em.
pub const WIDEST_EM: u128 = 0x53_d70a_3d70_a3d7;

/// A text's width is a double.
pub proof fn lemma_text_width(s: Seq<char>)
    ensures
        text_width(s) >= 0,
        double::is_factor(text_width(s)),
    decreases s.len(),
{
    if s.len() > 0 {
        lemma_text_width(s.drop_last());
        lemma_add_char(text_width(s.drop_last()), s.last());
    } else {
        double::lemma_rounded(0);
    }
}

pub proof fn lemma_text_width_bound(s: Seq<char>)
    requires
        s.len() <= MAX_DISPLAY_CHARS + 1,
    ensures
        text_width(s) <= WIDEST_EM * s.len(),
    decreases s.len(),
{
    if s.len() > 0 {
        lemma_text_width_bound(s.drop_last());
        lemma_text_width(s.drop_last());
        lemma_add_char(text_width(s.drop_last()), s.last());
    }
}

/// The width of the characters of `v`, no more than are displayed, in units of 2^-54
/// em.
pub fn text_em(v: &Vec<char>) -> (r: u128)
    requires
        v@.len() <= MAX_DISPLAY_CHARS + 1,
    ensures
        r == text_width(v@),
{
    let mut r: u128 = 0;
    assert(v@.take(0) =~= Seq::<char>::empty());
    for i in 0..v.len()
        invariant
            v@.len() <= MAX_DISPLAY_CHARS + 1,
            r == text_width(v@.take(i as int)),
    {
        proof {
            assert(v@.take(i + 1).drop_last() =~= v@.take(i as int));
            lemma_text_width_bound(v@.take(i as int));
        }
        r = double::round(r + char_em(v[i]));
    }
    assert(v@.take(v@.len() as int) =~= v@);
    r
}

/// How large a line is set: the main text, or a countdown's label.
#[derive(Debug, Clone, Copy, PartialEq, Eq, Structural)]
pub enum Scale {
    /// The main size itself.
    Full,
    /// 60% of the main size.
    Label,
}

/// A scale in units of 2^-54: 1, or 0.6 as a double.
pub open spec fn scale_of(scale: Scale) -> int {
    match scale {
        Scale::Full => 0x40_0000_0000_0000,
        Scale::Label => 0x26_6666_6666_6666,
    }
}

/// The size of an em, in units of 2^-54 pixels, where the main size is `px` pixels.
pub open spec fn em_px(px: int, scale: Scale) -> int {
    double::rounded(px * scale_of(scale))
}

pub proof fn lemma_em_px(px: int, scale: Scale)
    requires
        px >= 0,
    ensures
        em_px(px, scale) >= 0,
        double::is_factor(em_px(px, scale)),
        px <= u32::MAX ==> em_px(px, scale) <= 0x40_0000_0000_0000_0000_0000,
        px >= 1 ==> em_px(px, scale) >= 0x20_0000_0000_0000,
{
    let exact = px * scale_of(scale);
    double::lemma_rounded(exact);
    double::lemma_rounded_is_double(exact);
    if px >= 1 {
        double::lemma_rounded(0x10_0000_0000_0000);
        lemma2_to64();
        double::lemma_rounded_scales(0x10_0000_0000_0000, 1);
        double::lemma_rounded_bound(exact, 0x20_0000_0000_0000);
    }
    if px <= u32::MAX {
        lemma2_to64();
        lemma2_to64_rest();
        lemma_pow2_adds(54, 32);
        assert(pow2(86) == 0x40_0000_0000_0000_0000_0000);
        double::lemma_rounded(1);
        double::lemma_rounded_scales(1, 86);
        double::lemma_rounded_bound(exact, 0x40_0000_0000_0000_0000_0000);
    }
}

pub proof fn lemma_em_px_grows(small: int, large: int, scale: Scale)
    requires
        0 <= small <= large,
    ensures
        em_px(small, scale) <= em_px(large, scale),
{
    double::lemma_rounded_grows(small * scale_of(scale), large * scale_of(scale));
}

/// The size of an em, in units of 2^-54 pixels, where the main size is `px` pixels.
fn em_size(px: u32, scale: Scale) -> (e: u128)
    ensures
        e == em_px(px as int, scale),
        double::is_factor(e as int),
        e <= 0x40_0000_0000_0000_0000_0000,
{
    proof {
        lemma_em_px(px as int, scale);
    }
    let parts: u128 = match scale {
        Scale::Full => 0x40_0000_0000_0000,
        Scale::Label => 0x26_6666_6666_6666,
    };
    double::round(px as u128 * parts)
}

/// Units of length on screen in a pixel.
pub const PIXEL: u128 = 0x100_0000_0000_0000;

/// How far a greedy wrap has come: on which line, and how much of it is taken.
pub struct Wrapped {
    pub lines: int,
    pub cur: int,
}

/// The wrap after one more word of width `w`, `gap` after what precedes it, in
/// lines of `usable`. A word wider than a line starts on a fresh line and breaks
/// within itself.
pub open spec fn place(at: Wrapped, w: int, gap: int, usable: int) -> Wrapped {
    if w > usable {
        let full = double::ceiling(double::quotient(w, usable));
        Wrapped {
            lines: at.lines + (if at.cur > 0 {
                1int
            } else {
                0int
            }) + full - 1,
            cur: double::rounded(w - double::rounded((full - 1) * usable)),
        }
    } else if double::rounded(double::rounded(at.cur + gap) + w) <= usable {
        Wrapped { lines: at.lines, cur: double::rounded(at.cur + double::rounded(gap + w)) }
    } else {
        Wrapped { lines: at.lines + 1, cur: w }
    }
}

/// The width of `word` on screen, where an em is `e`.
pub open spec fn word_width(word: Seq<char>, e: int) -> int {
    double::product(text_width(word), e)
}

/// The gap before the word at `i` on screen, where an em is `e`.
pub open spec fn gap_before(i: int, e: int) -> int {
    if i == 0 {
        0
    } else {
        double::product(SPACE_EM as int, e)
    }
}

/// The wrap of `words`, each after a space but the first, where an em is `e`.
pub open spec fn wrap(words: Seq<Seq<char>>, e: int, usable: int) -> Wrapped
    decreases words.len(),
{
    if words.len() == 0 {
        Wrapped { lines: 1, cur: 0 }
    } else {
        place(
            wrap(words.drop_last(), e, usable),
            word_width(words.last(), e),
            gap_before(words.len() - 1, e),
            usable,
        )
    }
}

/// How many rendered lines the line `s` takes where an em is `e`, in a frame
/// `usable_w` pixels wide.
pub open spec fn wrapped_lines(s: Seq<char>, e: int, usable_w: int) -> int {
    wrap(text::pieces(s, ' '), e, usable_w * PIXEL).lines
}

/// Widths and gaps are doubles.
pub proof fn lemma_word_width(word: Seq<char>, i: int, e: int)
    requires
        e >= 0,
        double::is_factor(e),
    ensures
        word_width(word, e) >= 0,
        double::is_double(word_width(word, e)),
        gap_before(i, e) >= 0,
        double::is_double(gap_before(i, e)),
{
    lemma_text_width(word);
    double::lemma_product(text_width(word), e);
    double::lemma_rounded(SPACE_EM as int);
    double::lemma_product(SPACE_EM as int, e);
    double::lemma_rounded(0);
}

/// A word that breaks within itself takes all of it and no more: none of the roundings
/// on the way moves anything.
#[verifier::spinoff_prover]
pub proof fn lemma_break(w: int, usable: int, usable_w: int)
    requires
        usable == usable_w * PIXEL,
        0 < usable < w,
        w < 0x20_0000_0000_0000 * PIXEL,
        double::is_double(w),
    ensures
        ({
            let full = (w + usable - 1) / usable;
            &&& full == double::ceiling(double::quotient(w, usable))
            &&& double::rounded(w - double::rounded((full - 1) * usable)) == w - (full - 1)
                * usable
            &&& full >= 2
            &&& 0 < w - (full - 1) * usable <= usable
            &&& (full - 1) * usable >= full - 1
        }),
{
    let full = (w + usable - 1) / usable;
    lemma_fundamental_div_mod(w + usable - 1, usable);
    lemma_mod_bound(w + usable - 1, usable);
    assert(usable * full == (full - 1) * usable + usable) by (nonlinear_arith);
    assert(full >= 2) by (nonlinear_arith)
        requires
            usable * full >= w,
            w > usable,
            usable > 0,
    ;
    assert((full - 1) * usable >= full - 1) by (nonlinear_arith)
        requires
            full >= 1,
            usable >= 1,
    ;
    lemma2_to64_rest();
    double::lemma_step_divides(w, 56);
    let whole = (full - 1) * usable_w;
    assert((full - 1) * usable == whole * PIXEL) by (nonlinear_arith)
        requires
            usable == usable_w * PIXEL,
            whole == (full - 1) * usable_w,
    ;
    assert(usable == usable_w * pow2(56));
    assert(w < usable * 0x20_0000_0000_0000) by (nonlinear_arith)
        requires
            usable == usable_w * PIXEL,
            usable > 0,
            w < 0x20_0000_0000_0000 * PIXEL,
    ;
    double::lemma_quotient_ceiling(w, usable);
    assert(whole >= 0) by (nonlinear_arith)
        requires
            whole == (full - 1) * usable_w,
            full >= 1,
            usable_w * PIXEL > 0,
    ;
    assert(whole < 0x20_0000_0000_0000);
    double::lemma_small_in_unit(whole, 56);
    assert((full - 1) * usable == whole * pow2(56));
    double::lemma_difference_is_double(w, (full - 1) * usable);
}

/// Whether the arithmetic is exact enough for the wrap of `words`: either they are no
/// more than is displayed, in type that there can be, or none is wider than a line.
pub open spec fn in_reach(words: Seq<Seq<char>>, e: int, usable: int) -> bool {
    forall|i: int|
        0 <= i < words.len() ==> word_width(#[trigger] words[i], e) < 0x20_0000_0000_0000 * PIXEL
            || word_width(words[i], e) <= usable
}

/// A wrap has a line.
pub proof fn lemma_wrap_positive(words: Seq<Seq<char>>, e: int, usable: int, usable_w: int)
    requires
        usable == usable_w * PIXEL,
        usable > 0,
        e >= 0,
        double::is_factor(e),
        in_reach(words, e, usable),
    ensures
        wrap(words, e, usable).lines >= 1,
        wrap(words, e, usable).cur >= 0,
    decreases words.len(),
{
    if words.len() > 0 {
        let before = words.drop_last();
        assert forall|i: int| 0 <= i < before.len() implies word_width(#[trigger] before[i], e)
            < 0x20_0000_0000_0000 * PIXEL || word_width(before[i], e) <= usable by {
            assert(before[i] == words[i]);
        }
        assert(words[words.len() - 1] == words.last());
        lemma_wrap_positive(before, e, usable, usable_w);
        let at = wrap(words.drop_last(), e, usable);
        let w = word_width(words.last(), e);
        let gap = gap_before(words.len() - 1, e);
        lemma_word_width(words.last(), words.len() - 1, e);
        if w > usable {
            lemma_break(w, usable, usable_w);
        } else {
            double::lemma_rounded(gap + w);
            double::lemma_rounded(at.cur + double::rounded(gap + w));
        }
    }
}

/// No part of a text is longer than the text.
pub proof fn lemma_pieces_are_shorter(s: Seq<char>, c: char)
    ensures
        forall|i: int|
            0 <= i < text::pieces(s, c).len() ==> (#[trigger] text::pieces(s, c)[i]).len()
                <= s.len(),
    decreases s.len(),
{
    let p = text::pieces(s, c);
    if s.len() > 0 {
        let q = text::pieces(s.drop_last(), c);
        text::lemma_pieces_nonempty(s.drop_last(), c);
        lemma_pieces_are_shorter(s.drop_last(), c);
        assert forall|i: int| 0 <= i < p.len() implies (#[trigger] p[i]).len() <= s.len() by {
            if i < p.len() - 1 {
                assert(p[i] == q[i]);
            } else if s.last() != c {
                assert(p[i] == q.last().push(s.last()));
                assert(q[q.len() - 1] == q.last());
            }
        }
    }
}

/// Conservative greedy word wrap: how many rendered lines one logical line of no more
/// characters than are displayed occupies at `px` pixels and a scale. Mirrors Pango's
/// greedy breaker but with inflated widths, so it can only over-count lines, never
/// under. Words wider than the frame break within themselves, as wrap-mode `wordchar`
/// does.
pub fn wrapped_line_count(text: &str, px: u32, scale: Scale, usable_w: u32) -> (lines: u128)
    requires
        usable_w > 0,
        text@.len() <= MAX_DISPLAY_CHARS + 1,
    ensures
        lines == wrapped_lines(text@, em_px(px as int, scale), usable_w as int),
{
    count_lines(&text::chars_of(text), em_size(px, scale), usable_w)
}

/// A width times the size of an em is within reach of the arithmetic.
proof fn lemma_width_in_reach(width: int, e: int)
    requires
        0 <= width <= 0x10_0000_0000_0000_0000,
        double::is_factor(width),
        0 <= e <= 0x40_0000_0000_0000_0000_0000,
        double::is_factor(e),
    ensures
        0 <= double::product(width, e) <= 0x80_0000_0000_0000_0000_0000_0000,
{
    double::lemma_product(width, e);
    assert(0 <= width * e <= 0x10_0000_0000_0000_0000 * 0x40_0000_0000_0000_0000_0000)
        by (nonlinear_arith)
        requires
            0 <= width <= 0x10_0000_0000_0000_0000,
            0 <= e <= 0x40_0000_0000_0000_0000_0000,
    ;
    double::lemma_rounded(width * e);
}

fn count_lines(v: &Vec<char>, e: u128, usable_w: u32) -> (lines: u128)
    requires
        usable_w > 0,
        v@.len() <= MAX_DISPLAY_CHARS + 1,
        double::is_factor(e as int),
        e <= 0x40_0000_0000_0000_0000_0000,
    ensures
        lines == wrapped_lines(v@, e as int, usable_w as int),
{
    let usable: u128 = usable_w as u128 * PIXEL;
    proof {
        double::lemma_rounded(SPACE_EM as int);
        lemma_width_in_reach(SPACE_EM as int, e as int);
    }
    let space: u128 = double::multiply(SPACE_EM, e);
    // Splitting on the space alone, so that runs of spaces keep their width
    // instead of collapsing.
    let words = text::split(v, ' ');
    let ghost all = text::texts(words@);
    let mut lines: u128 = 1;
    let mut cur: u128 = 0;
    proof {
        assert(all.take(0) =~= Seq::<Seq<char>>::empty());
        lemma_pieces_are_shorter(v@, ' ');
    }
    for i in 0..words.len()
        invariant
            usable == usable_w * PIXEL,
            usable_w > 0,
            double::is_factor(e as int),
            e <= 0x40_0000_0000_0000_0000_0000,
            space == double::product(SPACE_EM as int, e as int),
            space <= 0x80_0000_0000_0000_0000_0000_0000,
            all == text::texts(words@),
            forall|j: int| 0 <= j < all.len() ==> (#[trigger] all[j]).len() <= MAX_DISPLAY_CHARS + 1,
            (Wrapped { lines: lines as int, cur: cur as int }) == wrap(
                all.take(i as int),
                e as int,
                usable as int,
            ),
            cur <= 0x80_0000_0000_0000_0000_0000_0000,
            1 <= lines <= 1 + i * 0x1_0000_0000_0000,
    {
        let word = &words[i];
        proof {
            assert(all[i as int] == word@);
            assert(all.take(i + 1).drop_last() =~= all.take(i as int));
            assert(all.take(i + 1).last() == word@);
            lemma_text_width(word@);
            lemma_text_width_bound(word@);
            lemma_width_in_reach(text_width(word@), e as int);
            assert(i * 0x1_0000_0000_0000 + 0x1_0000_0000_0000 == (i + 1) * 0x1_0000_0000_0000);
        }
        let w: u128 = double::multiply(text_em(word), e);
        let gap: u128 = if i == 0 {
            0
        } else {
            space
        };
        proof {
            double::lemma_rounded(cur + gap);
            double::lemma_rounded(gap + w);
        }
        if w > usable {
            // A too-long word moves to a fresh line and breaks within itself
            // there.
            let full: u128 = (w + usable - 1) / usable;
            proof {
                lemma_word_width(word@, i as int, e as int);
                lemma_break(w as int, usable as int, usable_w as int);
                assert(full <= 0xffff_ffff_fffe) by (nonlinear_arith)
                    requires
                        full == (w + usable - 1) / usable as int,
                        usable >= 0x100_0000_0000_0000,
                        w <= 0x80_0000_0000_0000_0000_0000_0000,
                        w - (full - 1) * usable > 0,
                ;
            }
            if cur > 0 {
                lines = lines + 1;
            }
            lines = lines + (full - 1);
            cur = w - (full - 1) * usable;
        } else if double::round(double::round(cur + gap) + w) <= usable {
            let taken: u128 = double::round(gap + w);
            proof {
                double::lemma_rounded(double::rounded(cur + gap) + w);
                double::lemma_rounded(cur + taken);
            }
            cur = double::round(cur + taken);
        } else {
            lines = lines + 1;
            cur = w;
        }
    }
    assert(all.take(all.len() as int) =~= all);
    lines
}

/// The width of the unbroken run of characters that `s` ends in.
pub open spec fn run_width(s: Seq<char>) -> int
    decreases s.len(),
{
    if s.len() == 0 || text::is_space(s.last()) {
        0
    } else {
        double::rounded(run_width(s.drop_last()) + em(s.last()))
    }
}

/// The width of the widest word of `s`, words being what whitespace separates.
pub open spec fn widest_word(s: Seq<char>) -> int
    decreases s.len(),
{
    if s.len() == 0 {
        0
    } else {
        let before = widest_word(s.drop_last());
        if run_width(s) > before {
            run_width(s)
        } else {
            before
        }
    }
}

/// A word's width is a double.
pub proof fn lemma_widest_word(s: Seq<char>)
    ensures
        run_width(s) >= 0,
        double::is_factor(run_width(s)),
        widest_word(s) >= 0,
        double::is_factor(widest_word(s)),
        s.len() <= MAX_DISPLAY_CHARS + 1 ==> run_width(s) <= WIDEST_EM * s.len() && widest_word(s)
            <= WIDEST_EM * s.len(),
    decreases s.len(),
{
    double::lemma_rounded(0);
    if s.len() > 0 {
        lemma_widest_word(s.drop_last());
        lemma_add_char(run_width(s.drop_last()), s.last());
    }
}

fn longest_word(v: &Vec<char>) -> (r: u128)
    requires
        v@.len() <= MAX_DISPLAY_CHARS + 1,
    ensures
        r == widest_word(v@),
{
    let mut widest: u128 = 0;
    let mut run: u128 = 0;
    assert(v@.take(0) =~= Seq::<char>::empty());
    for i in 0..v.len()
        invariant
            v@.len() <= MAX_DISPLAY_CHARS + 1,
            run == run_width(v@.take(i as int)),
            widest == widest_word(v@.take(i as int)),
    {
        proof {
            assert(v@.take(i + 1).drop_last() =~= v@.take(i as int));
            lemma_widest_word(v@.take(i as int));
        }
        if text::is_whitespace(v[i]) {
            run = 0;
        } else {
            run = double::round(run + char_em(v[i]));
        }
        if run > widest {
            widest = run;
        }
    }
    assert(v@.take(v@.len() as int) =~= v@);
    widest
}

/// One logical (pre-wrap) line of on-screen text and its scale relative to the main
/// size.
pub struct FitLine {
    pub text: Vec<char>,
    pub scale: Scale,
}

/// A logical line by its text.
pub struct FitLineView {
    pub text: Seq<char>,
    pub scale: Scale,
}

impl View for FitLine {
    type V = FitLineView;

    open spec fn view(&self) -> FitLineView {
        FitLineView { text: self.text@, scale: self.scale }
    }
}

/// Logical lines by their texts.
pub open spec fn line_views(lines: Seq<FitLine>) -> Seq<FitLineView> {
    lines.map_values(|l: FitLine| l@)
}

/// Whether no line is longer than a clamped text can be.
pub open spec fn within_display(lines: Seq<FitLineView>) -> bool {
    forall|i: int| 0 <= i < lines.len() ==> (#[trigger] lines[i]).text.len() <= MAX_DISPLAY_CHARS
        + 1
}

/// The size of an em of `line` where the main size is `px` pixels.
pub open spec fn line_em(line: FitLineView, px: int) -> int {
    em_px(px, line.scale)
}

/// The height of a line at size `px`: its rendered lines, each a quarter taller than
/// its em.
pub open spec fn line_height(line: FitLineView, px: int, usable_w: int) -> int {
    let e = line_em(line, px);
    double::rounded(wrapped_lines(line.text, e, usable_w) * (5 * e))
}

/// The height of `lines` at size `px`, summed from the top.
pub open spec fn height(lines: Seq<FitLineView>, px: int, usable_w: int) -> int
    decreases lines.len(),
{
    if lines.len() == 0 {
        0
    } else {
        double::rounded(
            height(lines.drop_last(), px, usable_w) + line_height(lines.last(), px, usable_w),
        )
    }
}

/// Whether the widest word of a line fits in the frame on a line of its own.
pub open spec fn word_fits(line: FitLineView, px: int, usable_w: int) -> bool {
    double::product(widest_word(line.text), line_em(line, px)) <= usable_w * PIXEL
}

/// Whether `lines` fit in `usable_w` by `usable_h` pixels at size `px`: no word
/// broken, and the wrapped layout no taller than the frame.
pub open spec fn fits(lines: Seq<FitLineView>, px: int, usable_w: int, usable_h: int) -> bool {
    &&& forall|i: int| 0 <= i < lines.len() ==> word_fits(#[trigger] lines[i], px, usable_w)
    &&& height(lines, px, usable_w) <= usable_h * PIXEL
}

/// The size a bisection between `lo` and `hi` settles on.
pub open spec fn bisected(
    lines: Seq<FitLineView>,
    lo: int,
    hi: int,
    usable_w: int,
    usable_h: int,
) -> int
    decreases hi - lo,
{
    if lo >= hi {
        lo
    } else {
        let mid = (lo + hi + 1) / 2;
        if fits(lines, mid, usable_w, usable_h) {
            bisected(lines, mid, hi, usable_w, usable_h)
        } else {
            bisected(lines, lo, mid - 1, usable_w, usable_h)
        }
    }
}

/// The largest size that is tried.
pub open spec fn ceiling(max_px: int) -> int {
    if max_px < MIN_FONT_PX {
        MIN_FONT_PX as int
    } else {
        max_px
    }
}

/// The size for `lines` in `usable_w` by `usable_h` pixels.
pub open spec fn fitted(lines: Seq<FitLineView>, max_px: int, usable_w: int, usable_h: int) -> int {
    bisected(lines, MIN_FONT_PX as int, ceiling(max_px), usable_w, usable_h)
}

/// Whether a line can be measured at size `px`: it is no longer than what is displayed
/// and the size is one there can be, or no part of it is wider than the frame.
pub open spec fn measurable(line: FitLineView, px: int, usable_w: int) -> bool {
    (line.text.len() <= MAX_DISPLAY_CHARS + 1 && px <= u32::MAX) || line_pieces_fit(
        line,
        px,
        usable_w,
    )
}

pub proof fn lemma_in_reach(line: FitLineView, px: int, usable_w: int)
    requires
        px >= 0,
        measurable(line, px, usable_w),
    ensures
        in_reach(text::pieces(line.text, ' '), line_em(line, px), usable_w * PIXEL),
{
    let e = line_em(line, px);
    let words = text::pieces(line.text, ' ');
    lemma_em_px(px, line.scale);
    lemma_pieces_are_shorter(line.text, ' ');
    assert forall|i: int| 0 <= i < words.len() implies word_width(#[trigger] words[i], e)
        < 0x20_0000_0000_0000 * PIXEL || word_width(words[i], e) <= usable_w * PIXEL by {
        assert(words[i] == text::pieces(line.text, ' ')[i]);
        lemma_text_width(words[i]);
        if line.text.len() <= MAX_DISPLAY_CHARS + 1 && px <= u32::MAX {
            lemma_text_width_bound(words[i]);
            lemma_width_in_reach(text_width(words[i]), e);
        }
    }
}

pub proof fn lemma_line_height(line: FitLineView, px: int, usable_w: int)
    requires
        px >= 0,
        usable_w > 0,
        measurable(line, px, usable_w),
    ensures
        line_height(line, px, usable_w) >= 0,
        double::is_double(line_height(line, px, usable_w)),
        wrapped_lines(line.text, line_em(line, px), usable_w) >= 1,
{
    let e = line_em(line, px);
    lemma_em_px(px, line.scale);
    lemma_in_reach(line, px, usable_w);
    lemma_wrap_positive(text::pieces(line.text, ' '), e, usable_w * PIXEL, usable_w);
    let exact = wrapped_lines(line.text, e, usable_w) * (5 * e);
    lemma_mul_nonnegative(wrapped_lines(line.text, e, usable_w), 5 * e);
    double::lemma_rounded(exact);
    double::lemma_rounded_is_double(exact);
}

pub proof fn lemma_height(lines: Seq<FitLineView>, px: int, usable_w: int)
    requires
        px >= 0,
        usable_w > 0,
        forall|i: int| 0 <= i < lines.len() ==> measurable(#[trigger] lines[i], px, usable_w),
    ensures
        height(lines, px, usable_w) >= 0,
        double::is_double(height(lines, px, usable_w)),
        lines.len() > 0 ==> height(lines, px, usable_w) >= height(
            lines.drop_last(),
            px,
            usable_w,
        ) && height(lines, px, usable_w) >= line_height(lines.last(), px, usable_w),
    decreases lines.len(),
{
    double::lemma_rounded(0);
    if lines.len() > 0 {
        assert(lines[lines.len() - 1] == lines.last());
        assert forall|i: int| 0 <= i < lines.drop_last().len() implies measurable(
            #[trigger] lines.drop_last()[i],
            px,
            usable_w,
        ) by {
            assert(lines.drop_last()[i] == lines[i]);
        }
        lemma_height(lines.drop_last(), px, usable_w);
        lemma_line_height(lines.last(), px, usable_w);
        let before = height(lines.drop_last(), px, usable_w);
        let last = line_height(lines.last(), px, usable_w);
        double::lemma_rounded_bound(before + last, before);
        double::lemma_rounded_bound(before + last, last);
        double::lemma_rounded_is_double(before + last);
    }
}

proof fn lemma_height_grows(lines: Seq<FitLineView>, n: int, px: int, usable_w: int)
    requires
        0 <= n <= lines.len(),
        px >= 0,
        usable_w > 0,
        forall|i: int| 0 <= i < lines.len() ==> measurable(#[trigger] lines[i], px, usable_w),
    ensures
        0 <= height(lines.take(n), px, usable_w) <= height(lines, px, usable_w),
    decreases lines.len() - n,
{
    assert forall|i: int| 0 <= i < n implies measurable(
        #[trigger] lines.take(n)[i],
        px,
        usable_w,
    ) by {
        assert(lines.take(n)[i] == lines[i]);
    }
    lemma_height(lines.take(n), px, usable_w);
    if n < lines.len() {
        assert(lines.take(n + 1).drop_last() =~= lines.take(n));
        assert forall|i: int| 0 <= i < n + 1 implies measurable(
            #[trigger] lines.take(n + 1)[i],
            px,
            usable_w,
        ) by {
            assert(lines.take(n + 1)[i] == lines[i]);
        }
        lemma_height(lines.take(n + 1), px, usable_w);
        lemma_height_grows(lines, n + 1, px, usable_w);
    } else {
        assert(lines.take(n) =~= lines);
    }
}

fn fits_at(lines: &Vec<FitLine>, px: u32, usable_w: u32, usable_h: u32) -> (r: bool)
    requires
        usable_w > 0,
        px > 0,
        within_display(line_views(lines@)),
    ensures
        r == fits(line_views(lines@), px as int, usable_w as int, usable_h as int),
{
    let ghost all = line_views(lines@);
    let room_w: u128 = usable_w as u128 * PIXEL;
    let room_h: u128 = usable_h as u128 * PIXEL;
    let mut total: u128 = 0;
    assert(all.take(0) =~= Seq::<FitLineView>::empty());
    for i in 0..lines.len()
        invariant
            usable_w > 0,
            px > 0,
            room_w == usable_w * PIXEL,
            room_h == usable_h * PIXEL,
            all == line_views(lines@),
            within_display(all),
            total == height(all.take(i as int), px as int, usable_w as int),
            total <= room_h,
            forall|j: int|
                0 <= j < i ==> word_fits(#[trigger] all[j], px as int, usable_w as int),
    {
        let line = &lines[i];
        proof {
            assert(all[i as int] == line@);
            assert(all.take(i + 1).drop_last() =~= all.take(i as int));
            assert(all.take(i + 1).last() == line@);
            assert forall|j: int| 0 <= j < all.len() implies measurable(
                #[trigger] all[j],
                px as int,
                usable_w as int,
            ) by {
                assert(all[j].text.len() <= MAX_DISPLAY_CHARS + 1);
            }
            lemma_height_grows(all, i + 1, px as int, usable_w as int);
            assert forall|j: int| 0 <= j < i + 1 implies measurable(
                #[trigger] all.take(i + 1)[j],
                px as int,
                usable_w as int,
            ) by {
                assert(all.take(i + 1)[j] == all[j]);
            }
            lemma_height(all.take(i + 1), px as int, usable_w as int);
            lemma_em_px(px as int, line.scale);
            lemma_widest_word(line.text@);
        }
        let e = em_size(px, line.scale);
        // Prefer shrinking over breaking inside a word: the widest word must fit
        // on a line of its own.
        let widest: u128 = longest_word(&line.text);
        if double::multiply(widest, e) > room_w {
            assert(!word_fits(all[i as int], px as int, usable_w as int));
            return false;
        }
        let count: u128 = count_lines(&line.text, e, usable_w);
        if count > 0x2_0000_0000 {
            proof {
                lemma_tall(count as int, e as int);
            }
            return false;
        }
        proof {
            assert(count * (5 * e) <= 0x2_0000_0000 * (5 * 0x40_0000_0000_0000_0000_0000))
                by (nonlinear_arith)
                requires
                    0 <= count <= 0x2_0000_0000,
                    0 <= e <= 0x40_0000_0000_0000_0000_0000,
            ;
            double::lemma_rounded(count * (5 * e));
        }
        let h: u128 = double::round(count * (5 * e));
        total = double::round(total + h);
        if total > room_h {
            return false;
        }
    }
    assert(all.take(all.len() as int) =~= all);
    true
}

/// So many lines are taller than any frame.
proof fn lemma_tall(count: int, e: int)
    requires
        count > 0x2_0000_0000,
        e >= 0x20_0000_0000_0000,
    ensures
        double::rounded(count * (5 * e)) > 0xffff_ffff * PIXEL,
{
    assert(count * (5 * e) >= 0x2_0000_0000 * (5 * 0x20_0000_0000_0000)) by (nonlinear_arith)
        requires
            count >= 0x2_0000_0000,
            e >= 0x20_0000_0000_0000,
    ;
    double::lemma_rounded(count * (5 * e));
}

/// Largest pixel size up to `max_px` whose wrapped layout fits the usable area, as
/// a bisection finds it. An over-tall layout renders as nothing, so erring small
/// is always the right trade.
pub fn fit_font_px(lines: &Vec<FitLine>, max_px: u32, usable_w: u32, usable_h: u32) -> (px: u32)
    requires
        usable_w > 0,
        within_display(line_views(lines@)),
    ensures
        px == fitted(line_views(lines@), max_px as int, usable_w as int, usable_h as int),
        MIN_FONT_PX <= px <= ceiling(max_px as int),
        px > MIN_FONT_PX ==> fits(
            line_views(lines@),
            px as int,
            usable_w as int,
            usable_h as int,
        ),
        px < max_px ==> !fits(
            line_views(lines@),
            px + 1,
            usable_w as int,
            usable_h as int,
        ),
{
    let ghost all = line_views(lines@);
    let mut lo: u32 = MIN_FONT_PX;
    let mut hi: u32 = if max_px < MIN_FONT_PX {
        MIN_FONT_PX
    } else {
        max_px
    };
    while lo < hi
        invariant
            usable_w > 0,
            all == line_views(lines@),
            within_display(all),
            MIN_FONT_PX <= lo <= hi <= ceiling(max_px as int),
            fitted(all, max_px as int, usable_w as int, usable_h as int) == bisected(
                all,
                lo as int,
                hi as int,
                usable_w as int,
                usable_h as int,
            ),
            lo > MIN_FONT_PX ==> fits(all, lo as int, usable_w as int, usable_h as int),
            hi < max_px ==> !fits(all, hi + 1, usable_w as int, usable_h as int),
        decreases hi - lo,
    {
        let mid: u32 = lo + (hi - lo + 1) / 2;
        assert(mid == (lo + hi + 1) / 2);
        if fits_at(lines, mid, usable_w, usable_h) {
            lo = mid;
        } else {
            hi = mid - 1;
        }
    }
    lo
}

/// Whether no word on a line by itself is wider than the frame.
pub open spec fn words_fit(words: Seq<Seq<char>>, e: int, usable: int) -> bool {
    forall|i: int| 0 <= i < words.len() ==> word_width(#[trigger] words[i], e) <= usable
}

/// Whether each part of a line that spaces separate fits in the frame by itself, at
/// size `px`.
pub open spec fn line_pieces_fit(line: FitLineView, px: int, usable_w: int) -> bool {
    forall|i: int|
        0 <= i < text::pieces(line.text, ' ').len() ==> word_width(
            #[trigger] text::pieces(line.text, ' ')[i],
            line_em(line, px),
        ) <= usable_w * PIXEL
}

/// Whether each part of each of `lines` that spaces separate fits in the frame by
/// itself, at size `px`.
pub open spec fn pieces_fit(lines: Seq<FitLineView>, px: int, usable_w: int) -> bool {
    forall|i: int| 0 <= i < lines.len() ==> line_pieces_fit(#[trigger] lines[i], px, usable_w)
}

/// Whether the only whitespace in `s` is the plain space, the one character both
/// the wrap and the word measure break at.
pub open spec fn plain(s: Seq<char>) -> bool {
    forall|i: int| 0 <= i < s.len() && text::is_space(#[trigger] s[i]) ==> s[i] == ' '
}

/// What a plain line is wrapped by is no wider than its widest word.
pub proof fn lemma_pieces_within_widest(s: Seq<char>)
    requires
        plain(s),
    ensures
        forall|i: int|
            0 <= i < text::pieces(s, ' ').len() ==> text_width(#[trigger] text::pieces(s, ' ')[i])
                <= widest_word(s),
        text_width(text::pieces(s, ' ').last()) == run_width(s),
        0 <= run_width(s) <= widest_word(s),
    decreases s.len(),
{
    let p = text::pieces(s, ' ');
    lemma_widest_word(s);
    if s.len() > 0 {
        let t = s.drop_last();
        let q = text::pieces(t, ' ');
        text::lemma_pieces_nonempty(t, ' ');
        assert forall|i: int| 0 <= i < t.len() && text::is_space(#[trigger] t[i]) implies t[i]
            == ' ' by {
            assert(t[i] == s[i]);
        }
        lemma_pieces_within_widest(t);
        assert(s[s.len() - 1] == s.last());
        if s.last() != ' ' {
            assert(p.last().drop_last() =~= q.last());
        }
        assert forall|i: int| 0 <= i < p.len() implies text_width(#[trigger] p[i]) <= widest_word(
            s,
        ) by {
            if i < p.len() - 1 {
                assert(p[i] == q[i]);
            } else {
                assert(p[i] == p.last());
            }
        }
    }
}

/// Where the only whitespace is the plain space, each part of a line fits once its
/// widest word does.
pub proof fn law_words_of_plain_lines_are_their_pieces(line: FitLineView, px: int, usable_w: int)
    requires
        plain(line.text),
        px >= 0,
        word_fits(line, px, usable_w),
    ensures
        line_pieces_fit(line, px, usable_w),
{
    let e = line_em(line, px);
    lemma_em_px(px, line.scale);
    lemma_pieces_within_widest(line.text);
    assert forall|i: int| 0 <= i < text::pieces(line.text, ' ').len() implies word_width(
        #[trigger] text::pieces(line.text, ' ')[i],
        e,
    ) <= usable_w * PIXEL by {
        let word = text::pieces(line.text, ' ')[i];
        lemma_text_width(word);
        double::lemma_product_grows(text_width(word), e, widest_word(line.text), e);
    }
}

/// Whether one wrap has come no further than another.
pub open spec fn at_most(a: Wrapped, b: Wrapped) -> bool {
    a.lines < b.lines || (a.lines == b.lines && a.cur <= b.cur)
}

/// What a word adds to a line is a double, no less than the word or than the line.
pub proof fn lemma_line_with_word(cur: int, gap: int, w: int)
    requires
        cur >= 0,
        double::is_double(cur),
        gap >= 0,
        w >= 0,
        double::is_double(w),
    ensures
        ({
            let next = double::rounded(cur + double::rounded(gap + w));
            &&& next >= cur
            &&& next >= w
            &&& double::is_double(next)
        }),
{
    double::lemma_rounded_bound(gap + w, w);
    let more = double::rounded(gap + w);
    double::lemma_rounded_bound(cur + more, w);
    double::lemma_rounded_bound(cur + more, cur);
    double::lemma_rounded_is_double(cur + more);
}

/// A line with less on it, before a narrower gap and word, has no less room.
pub proof fn lemma_line_with_less(a: int, b: int, gap_a: int, gap_b: int, w_a: int, w_b: int)
    requires
        0 <= a <= b,
        0 <= gap_a <= gap_b,
        0 <= w_a <= w_b,
    ensures
        double::rounded(double::rounded(a + gap_a) + w_a) <= double::rounded(
            double::rounded(b + gap_b) + w_b,
        ),
        double::rounded(a + double::rounded(gap_a + w_a)) <= double::rounded(
            b + double::rounded(gap_b + w_b),
        ),
{
    double::lemma_rounded(a + gap_a);
    double::lemma_rounded_grows(a + gap_a, b + gap_b);
    double::lemma_rounded_grows(
        double::rounded(a + gap_a) + w_a,
        double::rounded(b + gap_b) + w_b,
    );
    double::lemma_rounded(gap_a + w_a);
    double::lemma_rounded_grows(gap_a + w_a, gap_b + w_b);
    double::lemma_rounded_grows(
        a + double::rounded(gap_a + w_a),
        b + double::rounded(gap_b + w_b),
    );
}

/// Smaller type never wraps further.
#[verifier::spinoff_prover]
pub proof fn lemma_wrap_shrinks(words: Seq<Seq<char>>, small: int, large: int, usable: int)
    requires
        0 <= small <= large,
        double::is_factor(small),
        double::is_factor(large),
        words_fit(words, large, usable),
    ensures
        words_fit(words, small, usable),
        at_most(wrap(words, small, usable), wrap(words, large, usable)),
        wrap(words, small, usable).cur >= 0,
        wrap(words, large, usable).cur >= 0,
        double::is_double(wrap(words, small, usable).cur),
        double::is_double(wrap(words, large, usable).cur),
    decreases words.len(),
{
    assert forall|i: int| 0 <= i < words.len() implies word_width(#[trigger] words[i], small)
        <= usable by {
        lemma_text_width(words[i]);
        double::lemma_product_grows(text_width(words[i]), small, text_width(words[i]), large);
    }
    if words.len() > 0 {
        let before = words.drop_last();
        assert forall|i: int| 0 <= i < before.len() implies word_width(#[trigger] before[i], large)
            <= usable by {
            assert(before[i] == words[i]);
        }
        lemma_wrap_shrinks(before, small, large, usable);
        let a = wrap(before, small, usable);
        let b = wrap(before, large, usable);
        let word = words.last();
        assert(words[words.len() - 1] == word);
        let i = words.len() - 1;
        lemma_word_width(word, i, small);
        lemma_word_width(word, i, large);
        lemma_text_width(word);
        double::lemma_product_grows(text_width(word), small, text_width(word), large);
        double::lemma_product_grows(SPACE_EM as int, small, SPACE_EM as int, large);
        lemma_line_with_word(a.cur, gap_before(i, small), word_width(word, small));
        lemma_line_with_word(b.cur, gap_before(i, large), word_width(word, large));
        if a.lines == b.lines {
            lemma_line_with_less(
                a.cur,
                b.cur,
                gap_before(i, small),
                gap_before(i, large),
                word_width(word, small),
                word_width(word, large),
            );
        }
    } else {
        double::lemma_rounded(0);
    }
}

/// A word more, or a longer last word, never makes a wrap go less far.
#[verifier::spinoff_prover]
proof fn lemma_wrap_char(s: Seq<char>, e: int, usable: int)
    requires
        s.len() > 0,
        e >= 0,
        double::is_factor(e),
        words_fit(text::pieces(s, ' '), e, usable),
    ensures
        words_fit(text::pieces(s.drop_last(), ' '), e, usable),
        at_most(
            wrap(text::pieces(s.drop_last(), ' '), e, usable),
            wrap(text::pieces(s, ' '), e, usable),
        ),
{
    let t = s.drop_last();
    let p = text::pieces(s, ' ');
    let q = text::pieces(t, ' ');
    text::lemma_pieces_nonempty(t, ' ');
    assert(p[p.len() - 1] == p.last());
    if s.last() == ' ' {
        assert(p.drop_last() =~= q);
        assert forall|i: int| 0 <= i < q.len() implies word_width(#[trigger] q[i], e)
            <= usable by {
            assert(q[i] == p[i]);
        }
        lemma_wrap_shrinks(q, e, e, usable);
        lemma_word_width(p.last(), p.len() - 1, e);
        lemma_line_with_word(
            wrap(q, e, usable).cur,
            gap_before(p.len() - 1, e),
            word_width(p.last(), e),
        );
    } else {
        assert(p.drop_last() =~= q.drop_last());
        assert(p.last().drop_last() =~= q.last());
        let i = p.len() - 1;
        let narrow = word_width(q.last(), e);
        let wide = word_width(p.last(), e);
        lemma_text_width(q.last());
        lemma_add_char(text_width(q.last()), s.last());
        double::lemma_product_grows(text_width(q.last()), e, text_width(p.last()), e);
        assert forall|j: int| 0 <= j < q.len() implies word_width(#[trigger] q[j], e)
            <= usable by {
            if j < q.len() - 1 {
                assert(q[j] == q.drop_last()[j]);
                assert(p[j] == p.drop_last()[j]);
            } else {
                assert(q[j] == q.last());
            }
        }
        let before = q.drop_last();
        assert forall|j: int| 0 <= j < before.len() implies word_width(#[trigger] before[j], e)
            <= usable by {
            assert(before[j] == q[j]);
        }
        lemma_wrap_shrinks(before, e, e, usable);
        let at = wrap(before, e, usable);
        lemma_word_width(q.last(), i, e);
        lemma_line_with_less(
            at.cur,
            at.cur,
            gap_before(i, e),
            gap_before(i, e),
            narrow,
            wide,
        );
    }
}

proof fn lemma_wrap_grows(s: Seq<char>, n: int, e: int, usable: int)
    requires
        0 <= n <= s.len(),
        e >= 0,
        double::is_factor(e),
        words_fit(text::pieces(s, ' '), e, usable),
    ensures
        words_fit(text::pieces(s.take(n), ' '), e, usable),
        at_most(
            wrap(text::pieces(s.take(n), ' '), e, usable),
            wrap(text::pieces(s, ' '), e, usable),
        ),
    decreases s.len() - n,
{
    if n < s.len() {
        lemma_wrap_grows(s, n + 1, e, usable);
        assert(s.take(n + 1).drop_last() =~= s.take(n));
        lemma_wrap_char(s.take(n + 1), e, usable);
    } else {
        assert(s.take(n) =~= s);
    }
}

proof fn lemma_widest_grows(s: Seq<char>, n: int)
    requires
        0 <= n <= s.len(),
    ensures
        0 <= widest_word(s.take(n)) <= widest_word(s),
    decreases s.len() - n,
{
    lemma_widest_word(s.take(n));
    if n < s.len() {
        assert(s.take(n + 1).drop_last() =~= s.take(n));
        lemma_widest_grows(s, n + 1);
    } else {
        assert(s.take(n) =~= s);
    }
}

/// A line whose parts fit in width at one size is no taller at a smaller one, and its
/// parts and words fit there.
#[verifier::spinoff_prover]
proof fn lemma_line_shrinks(line: FitLineView, small: int, large: int, usable_w: int)
    requires
        0 <= small <= large,
        usable_w > 0,
        line_pieces_fit(line, large, usable_w),
        word_fits(line, large, usable_w),
    ensures
        line_pieces_fit(line, small, usable_w),
        word_fits(line, small, usable_w),
        line_height(line, small, usable_w) <= line_height(line, large, usable_w),
{
    let es = line_em(line, small);
    let el = line_em(line, large);
    lemma_em_px(small, line.scale);
    lemma_em_px(large, line.scale);
    lemma_em_px_grows(small, large, line.scale);
    lemma_widest_word(line.text);
    double::lemma_product_grows(widest_word(line.text), es, widest_word(line.text), el);
    let words = text::pieces(line.text, ' ');
    assert(words_fit(words, el, usable_w * PIXEL));
    lemma_wrap_shrinks(words, es, el, usable_w * PIXEL);
    lemma_line_height(line, small, usable_w);
    let few = wrapped_lines(line.text, es, usable_w);
    let many = wrapped_lines(line.text, el, usable_w);
    assert(0 <= few * (5 * es) <= many * (5 * el)) by (nonlinear_arith)
        requires
            0 <= few <= many,
            0 <= es <= el,
    ;
    double::lemma_rounded_grows(few * (5 * es), many * (5 * el));
    assert forall|i: int| 0 <= i < text::pieces(line.text, ' ').len() implies word_width(
        #[trigger] text::pieces(line.text, ' ')[i],
        es,
    ) <= usable_w * PIXEL by {
        assert(words[i] == text::pieces(line.text, ' ')[i]);
    }
}

/// A line that starts as a longer one does fits in width wherever the longer one and
/// its parts do, and is no taller there.
proof fn lemma_line_start(part: FitLineView, whole: FitLineView, px: int, usable_w: int)
    requires
        part.text.is_prefix_of(whole.text),
        part.scale == whole.scale,
        px >= 0,
        usable_w > 0,
        line_pieces_fit(whole, px, usable_w),
        word_fits(whole, px, usable_w),
    ensures
        line_pieces_fit(part, px, usable_w),
        word_fits(part, px, usable_w),
        line_height(part, px, usable_w) <= line_height(whole, px, usable_w),
{
    let n = part.text.len() as int;
    let e = line_em(part, px);
    lemma_em_px(px, part.scale);
    assert(whole.text.take(n) =~= part.text);
    lemma_widest_grows(whole.text, n);
    double::lemma_product_grows(widest_word(part.text), e, widest_word(whole.text), e);
    assert(words_fit(text::pieces(whole.text, ' '), e, usable_w * PIXEL));
    lemma_wrap_grows(whole.text, n, e, usable_w * PIXEL);
    lemma_line_height(part, px, usable_w);
    let few = wrapped_lines(part.text, e, usable_w);
    let many = wrapped_lines(whole.text, e, usable_w);
    assert(0 <= few * (5 * e) <= many * (5 * e)) by (nonlinear_arith)
        requires
            0 <= few <= many,
            0 <= e,
    ;
    double::lemma_rounded_grows(few * (5 * e), many * (5 * e));
}

proof fn lemma_height_shrinks(lines: Seq<FitLineView>, small: int, large: int, usable_w: int)
    requires
        0 <= small <= large,
        usable_w > 0,
        pieces_fit(lines, large, usable_w),
        forall|i: int| 0 <= i < lines.len() ==> word_fits(#[trigger] lines[i], large, usable_w),
    ensures
        pieces_fit(lines, small, usable_w),
        forall|i: int| 0 <= i < lines.len() ==> word_fits(#[trigger] lines[i], small, usable_w),
        height(lines, small, usable_w) <= height(lines, large, usable_w),
    decreases lines.len(),
{
    assert forall|i: int| 0 <= i < lines.len() implies line_pieces_fit(
        #[trigger] lines[i],
        small,
        usable_w,
    ) && word_fits(lines[i], small, usable_w) by {
        lemma_line_shrinks(lines[i], small, large, usable_w);
    }
    if lines.len() > 0 {
        let before = lines.drop_last();
        assert forall|i: int| 0 <= i < before.len() implies line_pieces_fit(
            #[trigger] before[i],
            large,
            usable_w,
        ) && word_fits(before[i], large, usable_w) by {
            assert(before[i] == lines[i]);
        }
        lemma_height_shrinks(before, small, large, usable_w);
        assert(lines[lines.len() - 1] == lines.last());
        lemma_line_shrinks(lines.last(), small, large, usable_w);
        lemma_height(before, small, usable_w);
        lemma_line_height(lines.last(), small, usable_w);
        double::lemma_rounded_grows(
            height(before, small, usable_w) + line_height(lines.last(), small, usable_w),
            height(before, large, usable_w) + line_height(lines.last(), large, usable_w),
        );
    }
}

/// What fits at one size fits at every smaller one, where no part of a line that
/// spaces separate is wider than the frame at the larger size.
pub proof fn law_smaller_sizes_fit_too(
    lines: Seq<FitLineView>,
    small: int,
    large: int,
    usable_w: int,
    usable_h: int,
)
    requires
        pieces_fit(lines, large, usable_w),
        0 <= small <= large,
        usable_w > 0,
        fits(lines, large, usable_w, usable_h),
    ensures
        fits(lines, small, usable_w, usable_h),
{
    lemma_height_shrinks(lines, small, large, usable_w);
}

proof fn lemma_bisected_is_largest(
    lines: Seq<FitLineView>,
    lo: int,
    hi: int,
    px: int,
    usable_w: int,
    usable_h: int,
)
    requires
        pieces_fit(lines, px, usable_w),
        usable_w > 0,
        0 <= lo <= px <= hi,
        fits(lines, px, usable_w, usable_h),
    ensures
        px <= bisected(lines, lo, hi, usable_w, usable_h),
    decreases hi - lo,
{
    if lo < hi {
        let mid = (lo + hi + 1) / 2;
        if fits(lines, mid, usable_w, usable_h) {
            if px >= mid {
                lemma_bisected_is_largest(lines, mid, hi, px, usable_w, usable_h);
            } else {
                lemma_bisected_within(lines, mid, hi, usable_w, usable_h);
            }
        } else {
            if px >= mid {
                law_smaller_sizes_fit_too(lines, mid, px, usable_w, usable_h);
            }
            lemma_bisected_is_largest(lines, lo, mid - 1, px, usable_w, usable_h);
        }
    }
}

proof fn lemma_bisected_within(
    lines: Seq<FitLineView>,
    lo: int,
    hi: int,
    usable_w: int,
    usable_h: int,
)
    requires
        lo <= hi,
    ensures
        lo <= bisected(lines, lo, hi, usable_w, usable_h) <= hi,
        bisected(lines, lo, hi, usable_w, usable_h) > lo ==> fits(
            lines,
            bisected(lines, lo, hi, usable_w, usable_h),
            usable_w,
            usable_h,
        ),
    decreases hi - lo,
{
    if lo < hi {
        let mid = (lo + hi + 1) / 2;
        if fits(lines, mid, usable_w, usable_h) {
            lemma_bisected_within(lines, mid, hi, usable_w, usable_h);
        } else {
            lemma_bisected_within(lines, lo, mid - 1, usable_w, usable_h);
        }
    }
}

/// The size found is one of those tried, and fits unless it is the smallest.
pub proof fn lemma_fitted(lines: Seq<FitLineView>, max_px: int, usable_w: int, usable_h: int)
    ensures
        ({
            let px = fitted(lines, max_px, usable_w, usable_h);
            &&& MIN_FONT_PX <= px <= ceiling(max_px)
            &&& px > MIN_FONT_PX ==> fits(lines, px, usable_w, usable_h)
        }),
{
    lemma_bisected_within(lines, MIN_FONT_PX as int, ceiling(max_px), usable_w, usable_h);
}

/// The size found is the largest that fits: no size up to the maximum at which the
/// lines fit, and each part of them that spaces separate fits by itself, is larger.
pub proof fn law_size_is_the_largest_that_fits(
    lines: Seq<FitLineView>,
    max_px: int,
    px: int,
    usable_w: int,
    usable_h: int,
)
    requires
        pieces_fit(lines, px, usable_w),
        usable_w > 0,
        MIN_FONT_PX <= px <= max_px,
        fits(lines, px, usable_w, usable_h),
    ensures
        px <= fitted(lines, max_px, usable_w, usable_h),
        fits(lines, fitted(lines, max_px, usable_w, usable_h), usable_w, usable_h),
{
    let lo = MIN_FONT_PX as int;
    lemma_bisected_is_largest(lines, lo, max_px, px, usable_w, usable_h);
    lemma_bisected_within(lines, lo, max_px, usable_w, usable_h);
    if fitted(lines, max_px, usable_w, usable_h) == lo {
        assert(px == lo);
    }
}

/// Whether `more` is `less` with text added: lines made longer, lines put after.
pub open spec fn has_more_text(more: Seq<FitLineView>, less: Seq<FitLineView>) -> bool {
    &&& less.len() <= more.len()
    &&& forall|i: int|
        0 <= i < less.len() ==> (#[trigger] less[i]).text.is_prefix_of(more[i].text)
            && less[i].scale == more[i].scale
}

proof fn lemma_less_text_fits(
    more: Seq<FitLineView>,
    less: Seq<FitLineView>,
    px: int,
    usable_w: int,
)
    requires
        pieces_fit(more, px, usable_w),
        has_more_text(more, less),
        px >= 0,
        usable_w > 0,
        forall|i: int| 0 <= i < more.len() ==> word_fits(#[trigger] more[i], px, usable_w),
    ensures
        pieces_fit(less, px, usable_w),
        forall|i: int| 0 <= i < less.len() ==> word_fits(#[trigger] less[i], px, usable_w),
        height(less, px, usable_w) <= height(more.take(less.len() as int), px, usable_w),
    decreases less.len(),
{
    let n = less.len() as int;
    assert forall|i: int| 0 <= i < n implies line_pieces_fit(#[trigger] less[i], px, usable_w)
        && word_fits(less[i], px, usable_w) by {
        assert(line_pieces_fit(more[i], px, usable_w));
        lemma_line_start(less[i], more[i], px, usable_w);
    }
    if n > 0 {
        let before = less.drop_last();
        assert forall|i: int| 0 <= i < before.len() implies (
        #[trigger] before[i]).text.is_prefix_of(more[i].text) && before[i].scale == more[i].scale by {
            assert(before[i] == less[i]);
        }
        lemma_less_text_fits(more, before, px, usable_w);
        assert(more.take(n).drop_last() =~= more.take(n - 1));
        assert(more.take(n).last() == more[n - 1]);
        assert(line_pieces_fit(more[n - 1], px, usable_w));
        assert(less[n - 1] == less.last());
        lemma_line_start(less[n - 1], more[n - 1], px, usable_w);
        lemma_height(before, px, usable_w);
        lemma_line_height(less.last(), px, usable_w);
        double::lemma_rounded_grows(
            height(before, px, usable_w) + line_height(less.last(), px, usable_w),
            height(more.take(n - 1), px, usable_w) + line_height(more[n - 1], px, usable_w),
        );
    }
}

/// More text never means bigger text, where no part of the longer text that spaces
/// separate is wider than the frame at the size found for it, unless that is the
/// smallest.
pub proof fn law_more_text_is_never_bigger(
    more: Seq<FitLineView>,
    less: Seq<FitLineView>,
    max_px: int,
    usable_w: int,
    usable_h: int,
)
    requires
        ({
            let px = fitted(more, max_px, usable_w, usable_h);
            px > MIN_FONT_PX ==> pieces_fit(more, px, usable_w)
        }),
        has_more_text(more, less),
        usable_w > 0,
    ensures
        fitted(more, max_px, usable_w, usable_h) <= fitted(less, max_px, usable_w, usable_h),
{
    let lo = MIN_FONT_PX as int;
    let px = fitted(more, max_px, usable_w, usable_h);
    lemma_bisected_within(more, lo, ceiling(max_px), usable_w, usable_h);
    lemma_bisected_within(less, lo, ceiling(max_px), usable_w, usable_h);
    if px > lo {
        lemma_less_text_fits(more, less, px, usable_w);
        lemma_height_grows(more, less.len() as int, px, usable_w);
        lemma_bisected_is_largest(less, lo, ceiling(max_px), px, usable_w, usable_h);
    }
}

/// How many characters `parts` hold in all.
pub open spec fn total_chars(parts: Seq<Seq<char>>) -> nat
    decreases parts.len(),
{
    if parts.len() == 0 {
        0
    } else {
        total_chars(parts.drop_last()) + parts.last().len()
    }
}

proof fn lemma_pieces_size(s: Seq<char>)
    ensures
        text::pieces(s, '\n').len() == newlines(s) + 1,
        total_chars(text::pieces(s, '\n')) <= s.len(),
    decreases s.len(),
{
    let p = text::pieces(s, '\n');
    if s.len() == 0 {
        assert(p.drop_last() =~= Seq::<Seq<char>>::empty());
        assert(total_chars(p.drop_last()) == 0);
    } else {
        let q = text::pieces(s.drop_last(), '\n');
        text::lemma_pieces_nonempty(s.drop_last(), '\n');
        lemma_pieces_size(s.drop_last());
        if s.last() == '\n' {
            assert(p.drop_last() =~= q);
            assert(p.last().len() == 0);
        } else {
            assert(p.drop_last() =~= q.drop_last());
            assert(p.last() == q.last().push(s.last()));
        }
    }
}

proof fn lemma_cr_size(parts: Seq<Seq<char>>)
    ensures
        total_chars(parts.map_values(|l: Seq<char>| text::without_cr(l))) <= total_chars(parts),
    decreases parts.len(),
{
    let cut = parts.map_values(|l: Seq<char>| text::without_cr(l));
    if parts.len() > 0 {
        assert(cut.drop_last() =~= parts.drop_last().map_values(
            |l: Seq<char>| text::without_cr(l),
        ));
        lemma_cr_size(parts.drop_last());
    }
}

/// A text has at most one line more than line breaks, and its lines hold no
/// characters that it does not.
pub proof fn lemma_lines_size(s: Seq<char>)
    ensures
        text::text_lines(s).len() <= newlines(s) + 1,
        total_chars(text::text_lines(s)) <= s.len(),
{
    let p = text::pieces(s, '\n');
    text::lemma_pieces_nonempty(s, '\n');
    lemma_pieces_size(s);
    let ended = p.drop_last().map_values(|l: Seq<char>| text::without_cr(l));
    lemma_cr_size(p.drop_last());
    if p.last().len() > 0 {
        assert(ended.push(p.last()).drop_last() =~= ended);
    }
}

/// The lines of `parts`, all at one scale.
pub open spec fn scaled(parts: Seq<Seq<char>>, scale: Scale) -> Seq<FitLineView> {
    parts.map_values(|l: Seq<char>| FitLineView { text: l, scale })
}

/// No text is longer than all of it together.
pub proof fn lemma_parts_are_shorter(parts: Seq<Seq<char>>)
    ensures
        forall|i: int| 0 <= i < parts.len() ==> (#[trigger] parts[i]).len() <= total_chars(parts),
    decreases parts.len(),
{
    if parts.len() > 0 {
        let before = parts.drop_last();
        lemma_parts_are_shorter(before);
        assert forall|i: int| 0 <= i < parts.len() implies (#[trigger] parts[i]).len()
            <= total_chars(parts) by {
            if i < before.len() {
                assert(before[i] == parts[i]);
            }
        }
    }
}

/// How many characters `lines` hold in all.
pub open spec fn total_text(lines: Seq<FitLineView>) -> nat
    decreases lines.len(),
{
    if lines.len() == 0 {
        0
    } else {
        total_text(lines.drop_last()) + lines.last().text.len()
    }
}

pub proof fn lemma_total_text(parts: Seq<Seq<char>>, scale: Scale)
    ensures
        total_text(scaled(parts, scale)) == total_chars(parts),
    decreases parts.len(),
{
    if parts.len() > 0 {
        assert(scaled(parts, scale).drop_last() =~= scaled(parts.drop_last(), scale));
        lemma_total_text(parts.drop_last(), scale);
    }
}

/// How many characters `words` and the spaces between them are.
spec fn span(words: Seq<Seq<char>>) -> int
    decreases words.len(),
{
    if words.len() == 0 {
        0
    } else {
        span(words.drop_last()) + words.last().len() + (if words.len() == 1 {
            0int
        } else {
            1int
        })
    }
}

/// The words and gaps of a line are its characters.
proof fn lemma_span_of_pieces(s: Seq<char>)
    ensures
        span(text::pieces(s, ' ')) == s.len(),
    decreases s.len(),
{
    let p = text::pieces(s, ' ');
    if s.len() == 0 {
        assert(p.drop_last() =~= Seq::<Seq<char>>::empty());
        assert(span(p.drop_last()) == 0);
    } else {
        let q = text::pieces(s.drop_last(), ' ');
        text::lemma_pieces_nonempty(s.drop_last(), ' ');
        lemma_span_of_pieces(s.drop_last());
        if s.last() == ' ' {
            assert(p.drop_last() =~= q);
        } else {
            assert(p.drop_last() =~= q.drop_last());
            assert(p.last() == q.last().push(s.last()));
        }
    }
}

/// The size of an em at the smallest size is at most this: 8 pixels.
const SMALLEST_EM: u128 = 0x200_0000_0000_0000;

/// What a character takes at most at the smallest size, and what rounding adds: 10.5
/// pixels.
pub const SMALLEST_ADVANCE: u128 = 0xa80_0000_0000_0000;

proof fn lemma_smallest_em(scale: Scale)
    ensures
        0 <= em_px(MIN_FONT_PX as int, scale) <= SMALLEST_EM,
        double::is_factor(em_px(MIN_FONT_PX as int, scale)),
{
    lemma_em_px(MIN_FONT_PX as int, scale);
    lemma2_to64_rest();
    double::lemma_rounded(1);
    double::lemma_rounded_scales(1, 57);
    double::lemma_rounded_bound(MIN_FONT_PX * scale_of(scale), SMALLEST_EM as int);
}

/// At the smallest size a word takes less than 10.481 pixels a character, and a gap
/// less than 2.5.
proof fn lemma_smallest_word(word: Seq<char>, i: int, e: int)
    requires
        word.len() <= MAX_DISPLAY_CHARS + 1,
        0 <= e <= SMALLEST_EM,
        double::is_factor(e),
    ensures
        0 <= word_width(word, e) <= 0xa7b_0000_0000_0000 * word.len(),
        0 <= gap_before(i, e) <= 0x280_0000_0000_0000,
{
    let width = text_width(word);
    let most = WIDEST_EM * word.len();
    lemma_word_width(word, i, e);
    lemma_text_width(word);
    lemma_text_width_bound(word);
    double::lemma_product(width, e);
    assert(0 <= width * e <= most * SMALLEST_EM) by (nonlinear_arith)
        requires
            0 <= width <= most,
            0 <= e <= SMALLEST_EM,
    ;
    double::lemma_rounded(width * e);
    double::lemma_rounded(SPACE_EM as int);
    double::lemma_product(SPACE_EM as int, e);
    let space = SPACE_EM * e;
    assert(0 <= space <= SPACE_EM * SMALLEST_EM) by (nonlinear_arith)
        requires
            space == SPACE_EM * e,
            0 <= e <= SMALLEST_EM,
    ;
    double::lemma_rounded(space);
}

/// Breaking lines wastes less than half of what is taken up, `more` being what a word
/// and its gap take and more than rounding adds.
#[verifier::spinoff_prover]
proof fn lemma_place_wastes_little(
    at: Wrapped,
    w: int,
    gap: int,
    usable: int,
    usable_w: int,
    taken: int,
    more: int,
)
    requires
        usable == usable_w * PIXEL,
        usable > 0,
        w >= 0,
        double::is_double(w),
        gap >= 0,
        at.lines >= 1,
        at.cur >= 0,
        0 <= taken <= 0x1000_0000_0000_0000_0000,
        (at.lines - 1) * usable + at.cur <= 2 * taken,
        gap + w <= more <= 0x1000_0000_0000_0000_0000,
        more >= gap + w + 0x4000_0000 || (at.cur == 0 && gap == 0 && w == 0),
    ensures
        ({
            let r = place(at, w, gap, usable);
            &&& r.lines >= 1
            &&& r.cur >= 0
            &&& (r.lines - 1) * usable + r.cur <= 2 * (taken + more)
        }),
{
    let r = place(at, w, gap, usable);
    lemma_mul_nonnegative(at.lines - 1, usable);
    double::lemma_rounded(gap + w);
    double::lemma_rounded(at.cur + double::rounded(gap + w));
    double::lemma_rounded(at.cur + gap);
    double::lemma_rounded(double::rounded(at.cur + gap) + w);
    if w > usable {
        let full = (w + usable - 1) / usable;
        lemma_break(w, usable, usable_w);
        let fresh: int = if at.cur > 0 {
            1
        } else {
            0
        };
        assert((r.lines - 1) * usable == (at.lines - 1) * usable + fresh * usable + (full - 1)
            * usable) by (nonlinear_arith)
            requires
                r.lines == at.lines + fresh + full - 1,
        ;
        assert(fresh * usable <= w) by (nonlinear_arith)
            requires
                0 <= fresh <= 1,
                0 < usable < w,
        ;
    } else if double::rounded(double::rounded(at.cur + gap) + w) > usable {
        assert(at.lines * usable == (at.lines - 1) * usable + usable) by (nonlinear_arith);
    }
}

proof fn lemma_wrap_wastes_little(words: Seq<Seq<char>>, e: int, usable: int, usable_w: int)
    requires
        usable == usable_w * PIXEL,
        usable > 0,
        0 <= e <= SMALLEST_EM,
        double::is_factor(e),
        0 <= span(words) <= MAX_DISPLAY_CHARS + 1,
    ensures
        ({
            let r = wrap(words, e, usable);
            &&& r.lines >= 1
            &&& r.cur >= 0
            &&& (r.lines - 1) * usable + r.cur <= 2 * (SMALLEST_ADVANCE * span(words))
        }),
    decreases words.len(),
{
    if words.len() > 0 {
        let before = words.drop_last();
        let i = before.len() as int;
        let word = words.last();
        lemma_span_positive(before);
        lemma_wrap_wastes_little(before, e, usable, usable_w);
        lemma_smallest_word(word, i, e);
        lemma_word_width(word, i, e);
        if word.len() == 0 {
            assert(text_width(word) == 0);
            double::lemma_rounded(0);
            double::lemma_product(0, e);
        }
        lemma_place_wastes_little(
            wrap(before, e, usable),
            word_width(word, e),
            gap_before(i, e),
            usable,
            usable_w,
            SMALLEST_ADVANCE * span(before),
            SMALLEST_ADVANCE * (span(words) - span(before)),
        );
    } else {
        assert(0 * usable == 0) by (nonlinear_arith);
    }
}

proof fn lemma_span_positive(words: Seq<Seq<char>>)
    ensures
        span(words) >= 0,
    decreases words.len(),
{
    if words.len() > 0 {
        lemma_span_positive(words.drop_last());
    }
}

/// How many lines `lines` wrap to in all at the smallest size.
pub open spec fn total_wrapped(lines: Seq<FitLineView>, usable_w: int) -> int
    decreases lines.len(),
{
    if lines.len() == 0 {
        0
    } else {
        total_wrapped(lines.drop_last(), usable_w) + wrapped_lines(
            lines.last().text,
            line_em(lines.last(), MIN_FONT_PX as int),
            usable_w,
        )
    }
}

/// The height of a line at the smallest size, and what rounding adds, is at most this.
pub const SMALLEST_LINE: u128 = 0xa00_0200_0000_0000;

/// At the smallest size, wrapping adds no more lines than twice what their characters
/// could fill, and the layout is as tall as its lines are many.
#[verifier::spinoff_prover]
pub proof fn lemma_smallest_height(lines: Seq<FitLineView>, usable_w: int)
    requires
        within_display(lines),
        total_text(lines) <= 0x10_0000,
        lines.len() <= 0x10_0000,
        usable_w > 0,
    ensures
        ({
            let n = total_wrapped(lines, usable_w);
            &&& n >= lines.len()
            &&& (n - lines.len()) * (usable_w * PIXEL) <= 2 * (SMALLEST_ADVANCE * total_text(
                lines,
            ))
            &&& 0 <= height(lines, MIN_FONT_PX as int, usable_w) <= n * SMALLEST_LINE
        }),
    decreases lines.len(),
{
    let px = MIN_FONT_PX as int;
    let usable = usable_w * PIXEL;
    if lines.len() > 0 {
        let before = lines.drop_last();
        let last = lines.last();
        assert(lines[lines.len() - 1] == last);
        assert forall|i: int| 0 <= i < before.len() implies (#[trigger] before[i]).text.len()
            <= MAX_DISPLAY_CHARS + 1 by {
            assert(before[i] == lines[i]);
        }
        lemma_smallest_height(before, usable_w);
        let e = line_em(last, px);
        lemma_smallest_em(last.scale);
        lemma_span_of_pieces(last.text);
        lemma_wrap_wastes_little(text::pieces(last.text, ' '), e, usable, usable_w);
        let m = total_wrapped(before, usable_w);
        let k = wrapped_lines(last.text, e, usable_w);
        assert((m + k - lines.len()) * usable == (m - before.len()) * usable + (k - 1) * usable)
            by (nonlinear_arith)
            requires
                lines.len() == before.len() + 1,
        ;
        lemma_extra_lines(m - before.len(), usable_w, total_text(before) as int);
        assert((k - 1) * usable <= 2 * (SMALLEST_ADVANCE * last.text.len()));
        lemma_extra_lines(k - 1, usable_w, last.text.len() as int);
        let exact = k * (5 * e);
        assert(0 <= exact <= k * 0xa00_0000_0000_0000) by (nonlinear_arith)
            requires
                exact == k * (5 * e),
                k >= 0,
                0 <= 5 * e <= 0xa00_0000_0000_0000,
        ;
        double::lemma_rounded(exact);
        let sum = height(before, px, usable_w) + double::rounded(exact);
        double::lemma_rounded(sum);
        assert((m + k) * SMALLEST_LINE == m * SMALLEST_LINE + k * SMALLEST_LINE)
            by (nonlinear_arith);
    } else {
        assert(0 * usable == 0) by (nonlinear_arith);
    }
}

proof fn lemma_extra_lines(extra: int, usable_w: int, chars: int)
    requires
        extra >= 0,
        usable_w > 0,
        0 <= chars <= 0x10_0000,
        extra * (usable_w * PIXEL) <= 2 * (SMALLEST_ADVANCE * chars),
    ensures
        extra <= 21 * chars,
{
    assert(extra * PIXEL <= extra * (usable_w * PIXEL)) by (nonlinear_arith)
        requires
            extra >= 0,
            usable_w >= 1,
    ;
}

} // verus!
