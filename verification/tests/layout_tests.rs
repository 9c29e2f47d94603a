use placard::layout::{
    FitLine, MAX_DISPLAY_CHARS, MAX_DISPLAY_LINES, MIN_FONT_PX, Scale, char_em, clamp_display,
    fit_font_px, text_em, wrapped_line_count,
};
use placard::markup::markup_escape_text;

fn line(text: &str) -> FitLine {
    FitLine { text: text.chars().collect(), scale: Scale::Full }
}

fn fit(text: &str) -> u32 {
    fit_font_px(&text.lines().map(line).collect(), 160, 1728, 952)
}

#[test]
fn long_words_wrap_onto_fresh_lines_in_the_model() {
    // A word wider than the frame starts on its own line, as Pango does:
    // 0.4 of a line used, then a 2.5-line word → 1 + 3 = 4 lines.
    let usable = 1000;
    // "aaaaa" = 5 × 0.8em × 100px = 400px; 25 W's = 25 × 1.0em × 100px
    // = 2500px = a fresh line plus 2 more.
    let text = format!("aaaaa {}", "W".repeat(25));
    assert_eq!(wrapped_line_count(&text, 100, Scale::Full, usable), 4);
}

#[test]
fn wrapping_counts_spaces_and_fills_lines_exactly() {
    // Ten W's at 100 px fill 1000 px exactly.
    assert_eq!(wrapped_line_count(&"W".repeat(10), 100, Scale::Full, 1000), 1);
    assert_eq!(wrapped_line_count(&"W".repeat(11), 100, Scale::Full, 1000), 2);
    // 5 + 0.3 + 5 ems do not fit in 10.
    assert_eq!(wrapped_line_count("WWWWW WWWWW", 100, Scale::Full, 1000), 2);
    assert_eq!(wrapped_line_count("WWWWW WWWWW", 100, Scale::Full, 1030), 1);
    // Runs of spaces keep their width: 34 × 0.3 em.
    assert_eq!(wrapped_line_count(&" ".repeat(33), 100, Scale::Full, 1000), 1);
    assert_eq!(wrapped_line_count(&" ".repeat(34), 100, Scale::Full, 1000), 2);
    assert_eq!(wrapped_line_count("", 100, Scale::Full, 1000), 1);
}

/// Units of 2^-54 as a number.
fn ems(width: u128) -> f64 {
    width as f64 / 2f64.powi(54)
}

#[test]
fn widths_are_estimated_per_character() {
    for (c, em) in [(' ', 0.30), ('i', 0.40), ('|', 0.40), ('f', 0.55), ('"', 0.55), ('W', 1.0),
        ('@', 1.0), ('a', 0.80), ('\t', 0.80), ('…', 1.30), ('漢', 1.30)]
    {
        assert_eq!(ems(char_em(c)), em, "{c:?}");
    }
    let chars: Vec<char> = "Will you?".chars().collect();
    assert_eq!(ems(text_em(&chars)), 1.0 + 0.4 + 0.4 + 0.4 + 0.3 + 0.8 + 0.8 + 0.8 + 0.8);
    // Three tenths of an em ten times over fall short of three.
    assert!(ems(text_em(&vec![' '; 10])) < 3.0);
}

#[test]
fn sizes_are_the_largest_that_fit() {
    // One line: 1.25 × 160 px is well within the frame.
    assert_eq!(fit("GO"), 160);
    // 60 em at 28 px are 1680 px; at 29 px they are 1740.
    assert_eq!(fit(&"M".repeat(60)), 28);
    // 10.8 em fill the width exactly: 160 × 10.8 = 1728. 11.2 em need 154 px.
    assert_eq!(fit(&format!("{}a", "W".repeat(10))), 160);
    assert_eq!(fit(&format!("{}ai", "W".repeat(10))), 154);
    // Whitespace that no line breaks at changes nothing while all of it fits.
    assert_eq!(fit("A\tB\u{a0}C\u{3000}D"), 160);
    // Five lines at 152 px are 950 px tall.
    assert_eq!(fit("A\nB\nC\nD\nE"), 152);
    // Never below the floor.
    assert_eq!(fit(&"W".repeat(4000)), MIN_FONT_PX);
    assert_eq!(fit_font_px(&vec![line("A")], 4, 1728, 952), MIN_FONT_PX);
    assert_eq!(fit_font_px(&vec![], 160, 1, 0), 160);
    assert_eq!(fit_font_px(&vec![line("GO")], u32::MAX, 1728, 952), 761);
}

#[test]
fn an_exact_fill_goes_by_its_rounding() {
    // 3 × 0.4 em add up to a little more than 1.2 em, so that 160 px are too large for
    // a width of 192 and 159 px are not.
    assert_eq!(fit_font_px(&vec![line("iii")], 160, 192, 1000), 159);
    assert_eq!(fit_font_px(&vec![line("iii")], 160, 193, 1000), 160);
    // Two of them do not.
    assert_eq!(fit_font_px(&vec![line("ii")], 160, 128, 1000), 160);
    assert_eq!(fit_font_px(&vec![line("ii")], 160, 127, 1000), 158);
}

fn advance(c: char) -> f64 {
    ems(char_em(c))
}

fn measure(text: &str) -> f64 {
    text.chars().map(advance).sum()
}

/// The number of lines that double-precision arithmetic wraps a text to.
fn wrapped_in_doubles(text: &str, em_px: f64, usable_w: f64) -> usize {
    let space = 0.30 * em_px;
    let mut lines = 1usize;
    let mut cur = 0.0f64;
    for (i, word) in text.split(' ').enumerate() {
        let w = measure(word) * em_px;
        let gap = if i == 0 { 0.0 } else { space };
        if w > usable_w {
            if cur > 0.0 {
                lines += 1;
            }
            let full = (w / usable_w).ceil().max(1.0) as usize;
            lines += full - 1;
            cur = w - (full - 1) as f64 * usable_w;
        } else if cur + gap + w <= usable_w {
            cur += gap + w;
        } else {
            lines += 1;
            cur = w;
        }
    }
    lines
}

fn fits_in_doubles(lines: &[FitLine], px: u32, usable_w: f64, usable_h: f64) -> bool {
    let mut height = 0.0;
    for line in lines {
        let text: String = line.text.iter().collect();
        let scale = if line.scale == Scale::Full { 1.0 } else { 0.6 };
        let em_px = f64::from(px) * scale;
        let widest = text.split_whitespace().map(measure).fold(0.0f64, f64::max);
        if widest * em_px > usable_w {
            return false;
        }
        height += wrapped_in_doubles(&text, em_px, usable_w) as f64 * 1.25 * em_px;
    }
    height <= usable_h
}

fn fit_in_doubles(lines: &[FitLine], max_px: u32, usable_w: f64, usable_h: f64) -> u32 {
    let (mut lo, mut hi) = (MIN_FONT_PX, max_px.max(MIN_FONT_PX));
    while lo < hi {
        let mid = (lo + hi).div_ceil(2);
        if fits_in_doubles(lines, mid, usable_w, usable_h) {
            lo = mid;
        } else {
            hi = mid - 1;
        }
    }
    lo
}

/// A small generator of numbers below `bound`, the same in every run.
fn pick(seed: &mut u64, bound: u64) -> u64 {
    *seed = seed.wrapping_mul(6_364_136_223_846_793_005).wrapping_add(1_442_695_040_888_963_407);
    (*seed >> 33) % bound
}

fn any_line(seed: &mut u64, letters: &[char], longest: u64) -> FitLine {
    let n = pick(seed, longest + 1);
    let text = (0..n).map(|_| letters[pick(seed, letters.len() as u64) as usize]).collect();
    let scale = if pick(seed, 2) == 0 { Scale::Full } else { Scale::Label };
    FitLine { text, scale }
}

#[test]
fn wraps_as_double_precision_does() {
    let seed = &mut 1;
    let sets: [&[char]; 4] = [
        &['i', ' '],
        &['i', 'f', 'a', 'W', '漢', ' ', ' '],
        &['i', 'a', '\t', '\u{a0}', ' '],
        &['f', 't', 'i'],
    ];
    for round in 0..4000u64 {
        let line = any_line(seed, sets[round as usize % 4], 40);
        let text: String = line.text.iter().collect();
        let px = 1 + pick(seed, 400) as u32;
        // Widths that a few narrow letters or spaces fill exactly, among others.
        let usable_w = 1 + match pick(seed, 3) {
            0 => u64::from(px) * 2 * pick(seed, 20) / 5,
            1 => u64::from(px) * 3 * pick(seed, 20) / 10,
            _ => pick(seed, 3000),
        };
        let scale = if line.scale == Scale::Full { 1.0 } else { 0.6 };
        assert_eq!(
            wrapped_line_count(&text, px, line.scale, usable_w as u32),
            wrapped_in_doubles(&text, f64::from(px) * scale, usable_w as f64) as u128,
            "{text:?} at {px} px in {usable_w}"
        );
    }
}

#[test]
fn sizes_as_double_precision_does() {
    let seed = &mut 2;
    let sets: [&[char]; 4] = [
        &['i', ' '],
        &['i', 'f', 'a', 'W', '漢', ' ', ' '],
        &['i', 'a', '\t', '\u{a0}', ' '],
        &['f', 't', 'i'],
    ];
    for round in 0..1500u64 {
        let letters = sets[round as usize % 4];
        let count = pick(seed, 4);
        let lines: Vec<FitLine> = (0..count).map(|_| any_line(seed, letters, 30)).collect();
        let max_px = pick(seed, 300) as u32;
        let usable_w = 1 + match pick(seed, 2) {
            0 => u64::from(max_px) * 2 * pick(seed, 20) / 5,
            _ => pick(seed, 2000),
        };
        let usable_h = match pick(seed, 2) {
            0 => u64::from(max_px) * 5 * pick(seed, 8) / 4,
            _ => pick(seed, 1100),
        };
        assert_eq!(
            fit_font_px(&lines, max_px, usable_w as u32, usable_h as u32),
            fit_in_doubles(&lines, max_px, usable_w as f64, usable_h as f64),
            "round {round}"
        );
    }
    for (unit, n) in [("i", 4000), ("漢 ", 2000), ("W\t", 2000), ("ab f", 1000)] {
        let lines = vec![line(&unit.repeat(n))];
        let most = u32::MAX / 3;
        for (max_px, w, h) in [(160, 1728, 952), (2000, 7680, 4320), (most, u32::MAX, u32::MAX),
            (most, 1, u32::MAX), (most, 1, 0)]
        {
            assert_eq!(
                fit_font_px(&lines, max_px, w, h),
                fit_in_doubles(&lines, max_px, f64::from(w), f64::from(h)),
                "{unit:?} up to {max_px} in {w} by {h}"
            );
        }
    }
}

#[test]
fn labels_count_at_their_scale() {
    let label = FitLine { text: "HOLD".chars().collect(), scale: Scale::Label };
    // 0.6 × 1.25 + 1.25 = 2 lines of the main size.
    assert_eq!(fit_font_px(&vec![label, line("1:30")], 1000, 1728, 952), 476);
}

#[test]
fn more_text_is_never_bigger_and_wider_type_wraps_more() {
    let mut text = String::new();
    let mut last = u32::MAX;
    for n in 0..300 {
        text.push(if n % 7 == 6 { ' ' } else { 'H' });
        let px = fit(&text);
        assert!(px <= last, "{text:?}: {px} > {last}");
        last = px;
    }
    for px in 1..300 {
        let few = wrapped_line_count(&text, px, Scale::Label, 1728);
        let many = wrapped_line_count(&text, px + 1, Scale::Label, 1728);
        assert!(few <= many, "{px}: {few} > {many}");
    }
}

#[test]
fn clamping_keeps_ordinary_text_and_bounds_the_rest() {
    assert_eq!(clamp_display("KILL ALL HUMANS"), "KILL ALL HUMANS");
    let lines = "a\n".repeat(MAX_DISPLAY_LINES - 1);
    assert_eq!(clamp_display(&lines), lines);
    let more = "a\n".repeat(MAX_DISPLAY_LINES);
    assert_eq!(clamp_display(&more), format!("{lines}a…"));
    let exact = "é".repeat(MAX_DISPLAY_CHARS);
    assert_eq!(clamp_display(&exact), exact);
    let over = "é".repeat(MAX_DISPLAY_CHARS + 1);
    assert_eq!(clamp_display(&over), format!("{exact}…"));
}

#[test]
fn every_clamped_layout_is_short_enough_at_the_smallest_size() {
    let worst = ["漢", "漢 ", "W\t", "漢\n", "漢漢漢漢漢漢漢漢漢漢漢漢漢漢漢漢漢 "];
    for unit in worst {
        let shown = clamp_display(&unit.repeat(5000));
        let lines: u128 = shown.lines().map(|l| wrapped_line_count(l, 8, Scale::Full, 1728)).sum();
        assert!(lines * 10 <= 952, "{unit:?}: {lines}");
    }
}

#[test]
fn markup_is_escaped() {
    assert_eq!(
        markup_escape_text("<b>&\"'\u{1}\u{1f}\u{7f}\u{85}\u{9f}\t\n</b>"),
        "&lt;b&gt;&amp;&quot;&#39;&#x1;&#x1f;&#x7f;\u{85}&#x9f;\t\n&lt;/b&gt;"
    );
    assert_eq!(markup_escape_text("&amp;"), "&amp;amp;");
    assert_eq!(markup_escape_text("a\0b"), "a");
    assert_eq!(markup_escape_text("é…"), "é…");
}
