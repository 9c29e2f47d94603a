//! What the appliance promises, stated over what goes in and what comes out.

use vstd::prelude::*;

use vstd::arithmetic::div_mod::*;
use vstd::arithmetic::power2::*;
use vstd::utf8::*;

use crate::command;
use crate::command::{CommandErrorView, CommandView};
use crate::config;
use crate::config::{ClockPosition, Config, ConfigErrorView};
use crate::history;
use crate::history::EntryView;
use crate::double;
use crate::layout;
use crate::markup;
use crate::net;
use crate::osc;
use crate::osc::{ArgView, MessageView};
use crate::render;
use crate::render::RenderSpecView;
use crate::scene;
use crate::scene::{ContentView, Flash, FlashField, Rgb, SceneView};
use crate::seconds;
use crate::seconds::SecondsView;
use crate::state;
use crate::state::{EnvelopeView, PersistedView, ReplyView, StateView};
use crate::status::{ContentStatusView, FlashStatus, LastCommandView, Release};
use crate::text;
use crate::time;
use crate::time::{Duration, Timestamp};

verus! {

/// The state after a command that is accepted.
pub open spec fn after(
    st: StateView,
    cfg: Config,
    c: CommandView,
    now: Timestamp,
    clock: Duration,
) -> StateView {
    state::applied(st, cfg, c, now, clock).0
}

/// What a command is answered with.
pub open spec fn answer(
    st: StateView,
    cfg: Config,
    c: CommandView,
    now: Timestamp,
    clock: Duration,
) -> Result<ReplyView, CommandErrorView> {
    state::applied(st, cfg, c, now, clock).1
}

/// Whether two states differ in nothing but the scene, its name and its flash.
pub open spec fn only_the_scene_differs(a: StateView, b: StateView) -> bool {
    &&& a.last_command == b.last_command
    &&& a.started == b.started
    &&& a.pushed == b.pushed
    &&& a.history == b.history
    &&& a.appends == b.appends
    &&& a.release == b.release
}

/// `show` puts its text on screen in the colours it gives, and leaves a colour that it
/// does not give as it was.
#[verifier::spinoff_prover]
pub proof fn law_show_puts_the_text_on_screen(
    st: StateView,
    cfg: Config,
    text: Seq<char>,
    bg: Option<Rgb>,
    fg: Option<Rgb>,
    flash: Flash,
    now: Timestamp,
    clock: Duration,
)
    ensures
        ({
            let c = CommandView::Show { text, bg, fg, flash };
            let s = after(st, cfg, c, now, clock);
            &&& answer(st, cfg, c, now, clock) == Ok::<ReplyView, CommandErrorView>(ReplyView::Done)
            &&& s.scene.content == (ContentView::Text { text })
            &&& bg is Some ==> s.scene.bg == bg->0
            &&& bg is None ==> s.scene.bg == st.scene.bg
            &&& fg is Some ==> s.scene.fg == fg->0
            &&& fg is None ==> s.scene.fg == st.scene.fg
            &&& s.canned_id is None
            &&& only_the_scene_differs(s, st)
        }),
{
}

/// `canned` puts the message of that id on screen. Each colour is the one the command
/// gives; where it gives none, the message's own; where that has none, the default.
#[verifier::spinoff_prover]
pub proof fn law_canned_puts_the_message_on_screen(
    st: StateView,
    cfg: Config,
    id: Seq<char>,
    bg: Option<Rgb>,
    fg: Option<Rgb>,
    flash: Option<Flash>,
    now: Timestamp,
    clock: Duration,
)
    requires
        cfg.canned@.contains_key(id),
    ensures
        ({
            let c = CommandView::Canned { id, bg, fg, flash };
            let s = after(st, cfg, c, now, clock);
            let m = cfg.canned@[id];
            &&& answer(st, cfg, c, now, clock) == Ok::<ReplyView, CommandErrorView>(ReplyView::Done)
            &&& s.scene.content == (ContentView::Text { text: m.text })
            &&& bg is Some ==> s.scene.bg == bg->0
            &&& bg is None && m.bg is Some ==> s.scene.bg == m.bg->0
            &&& bg is None && m.bg is None ==> s.scene.bg == cfg.defaults.bg
            &&& fg is Some ==> s.scene.fg == fg->0
            &&& fg is None && m.fg is Some ==> s.scene.fg == m.fg->0
            &&& fg is None && m.fg is None ==> s.scene.fg == cfg.defaults.fg
            &&& s.canned_id == Some(id)
            &&& only_the_scene_differs(s, st)
        }),
{
}

/// A `canned` that names no message is refused by that name and changes nothing.
#[verifier::spinoff_prover]
pub proof fn law_unknown_canned_is_refused(
    st: StateView,
    cfg: Config,
    id: Seq<char>,
    bg: Option<Rgb>,
    fg: Option<Rgb>,
    flash: Option<Flash>,
    now: Timestamp,
    clock: Duration,
)
    requires
        !cfg.canned@.contains_key(id),
    ensures
        ({
            let c = CommandView::Canned { id, bg, fg, flash };
            &&& answer(st, cfg, c, now, clock) == Err::<ReplyView, CommandErrorView>(
                CommandErrorView::UnknownCanned(id),
            )
            &&& after(st, cfg, c, now, clock) == st
        }),
{
}

/// `colour` changes the colours it gives and nothing else that is shown, and the screen
/// is steady after it.
#[verifier::spinoff_prover]
pub proof fn law_colour_changes_colours(
    st: StateView,
    cfg: Config,
    bg: Option<Rgb>,
    fg: Option<Rgb>,
    now: Timestamp,
    clock: Duration,
)
    ensures
        ({
            let c = CommandView::Colour { bg, fg };
            let s = after(st, cfg, c, now, clock);
            &&& answer(st, cfg, c, now, clock) == Ok::<ReplyView, CommandErrorView>(ReplyView::Done)
            &&& s.scene.content == st.scene.content
            &&& bg is Some ==> s.scene.bg == bg->0
            &&& bg is None ==> s.scene.bg == st.scene.bg
            &&& fg is Some ==> s.scene.fg == fg->0
            &&& fg is None ==> s.scene.fg == st.scene.fg
            &&& s.canned_id is None
            &&& s.flash is None
            &&& only_the_scene_differs(s, st)
        }),
{
}

/// A countdown counts to the instant it was given, under the label it was given; one of
/// seconds counts to the instant that many seconds after it came.
#[verifier::spinoff_prover]
pub proof fn law_countdown_counts_to_its_target(
    st: StateView,
    cfg: Config,
    target: Timestamp,
    secs: u32,
    label: Option<Seq<char>>,
    bg: Option<Rgb>,
    fg: Option<Rgb>,
    now: Timestamp,
    clock: Duration,
)
    requires
        time::names_instant(now.secs(), now.nanos()),
        now.secs() + secs <= 8_210_266_876_799,
    ensures
        ({
            let to = CommandView::CountdownTo { target, label, bg, fg };
            let of = CommandView::CountdownSecs { secs, label, bg, fg };
            let s = after(st, cfg, to, now, clock);
            let r = after(st, cfg, of, now, clock);
            let end = r.scene.content->target;
            &&& answer(st, cfg, to, now, clock) == Ok::<ReplyView, CommandErrorView>(
                ReplyView::Done,
            )
            &&& answer(st, cfg, of, now, clock) == Ok::<ReplyView, CommandErrorView>(
                ReplyView::Done,
            )
            &&& s.scene.content == (ContentView::Countdown { target, label })
            &&& r.scene.content == (ContentView::Countdown { target: end, label })
            &&& end.secs() == now.secs() + secs
            &&& now.nanos() < 1_000_000_000 || secs == 0 ==> end.nanos() == now.nanos()
            &&& now.nanos() >= 1_000_000_000 && secs > 0 ==> end.nanos() == now.nanos()
                - 1_000_000_000
            &&& bg is Some ==> s.scene.bg == bg->0 && r.scene.bg == bg->0
            &&& bg is None ==> s.scene.bg == st.scene.bg && r.scene.bg == st.scene.bg
            &&& fg is Some ==> s.scene.fg == fg->0 && r.scene.fg == fg->0
            &&& fg is None ==> s.scene.fg == st.scene.fg && r.scene.fg == st.scene.fg
            &&& s.canned_id is None && r.canned_id is None
            &&& s.flash is None && r.flash is None
            &&& only_the_scene_differs(s, st)
            &&& only_the_scene_differs(r, st)
        }),
{
    time::lemma_later(now, secs);
}

/// `clear` leaves a black screen with nothing on it, whatever was there.
#[verifier::spinoff_prover]
pub proof fn law_clear_leaves_a_black_screen(
    st: StateView,
    cfg: Config,
    now: Timestamp,
    clock: Duration,
)
    ensures
        ({
            let s = after(st, cfg, CommandView::Clear, now, clock);
            &&& answer(st, cfg, CommandView::Clear, now, clock) == Ok::<
                ReplyView,
                CommandErrorView,
            >(ReplyView::Done)
            &&& s.scene.bg.r == 0 && s.scene.bg.g == 0 && s.scene.bg.b == 0
            &&& s.scene.fg == cfg.defaults.fg
            &&& s.scene.content is Text && s.scene.content->text.len() == 0
            &&& s.canned_id is None
            &&& s.flash is None
            &&& only_the_scene_differs(s, st)
        }),
{
}

/// Two commands in a row leave what the second asks for: nothing of the first shows once
/// a later one gave text and both colours.
#[verifier::spinoff_prover]
pub proof fn law_the_last_command_wins(
    st: StateView,
    cfg: Config,
    first: CommandView,
    text: Seq<char>,
    bg: Rgb,
    fg: Rgb,
    flash: Flash,
    now: Timestamp,
    clock: Duration,
)
    ensures
        ({
            let c = CommandView::Show { text, bg: Some(bg), fg: Some(fg), flash };
            let s = after(after(st, cfg, first, now, clock), cfg, c, now, clock);
            &&& s.scene == (SceneView { bg, fg, content: ContentView::Text { text } })
            &&& s.flash == after(st, cfg, c, now, clock).flash
            &&& s.canned_id is None
        }),
{
}

/// `status` tells what the state is: the scene, where it came from, how long the
/// appliance has been up in whole seconds, the last command and the build.
#[verifier::spinoff_prover]
pub proof fn law_status_tells_the_state(
    st: StateView,
    cfg: Config,
    now: Timestamp,
    clock: Duration,
)
    requires
        gone_by(st.started, clock) < 0x1_0000_0000_0000_0000 * 1_000_000_000,
    ensures
        ({
            let r = answer(st, cfg, CommandView::Status, now, clock);
            let v = r->Ok_0->Status_0;
            let up = gone_by(st.started, clock);
            &&& r is Ok && r->Ok_0 is Status
            &&& after(st, cfg, CommandView::Status, now, clock) == st
            &&& v.ok
            &&& v.bg == st.scene.bg
            &&& v.fg == st.scene.fg
            &&& v.canned_id == st.canned_id
            &&& v.last_command == st.last_command
            &&& v.version == st.release.version@
            &&& v.build == st.release.build@
            &&& v.uptime_secs * 1_000_000_000 <= up < (v.uptime_secs + 1) * 1_000_000_000
            &&& match st.scene.content {
                ContentView::Text { text } => v.content == (ContentStatusView::Text {
                    text,
                    display: text,
                }),
                ContentView::Countdown { target, label } => {
                    &&& v.content is Countdown
                    &&& v.content->target == target
                    &&& v.content->label == label
                    &&& read_countdown(v.content->Countdown_display) == Some(
                        scene::secs_shown(target, now),
                    )
                },
            }
        }),
{
    if let ContentView::Countdown { target, .. } = st.scene.content {
        law_countdown_reads_back(scene::secs_shown(target, now));
    }
}

/// The number that decimal digits spell, read from the front; nothing where there are
/// none or something else stands among them.
pub open spec fn read_number(s: Seq<char>) -> Option<int>
    decreases s.len(),
{
    if s.len() == 0 || !('0' <= s.last() <= '9') {
        None
    } else if s.len() == 1 {
        Some(s.last() as int - '0' as int)
    } else {
        match read_number(s.drop_last()) {
            Some(n) => Some(10 * n + (s.last() as int - '0' as int)),
            None => None,
        }
    }
}

/// The place of the last colon in `s`, or -1.
pub open spec fn last_colon(s: Seq<char>) -> int
    decreases s.len(),
{
    if s.len() == 0 {
        -1
    } else if s.last() == ':' {
        s.len() - 1
    } else {
        last_colon(s.drop_last())
    }
}

/// What two digits behind the last colon of `s` spell, if they are below sixty.
pub open spec fn read_sixtieths(s: Seq<char>) -> Option<int> {
    let at = last_colon(s);
    if at < 0 || s.len() - at != 3 {
        None
    } else {
        match read_number(s.skip(at + 1)) {
            Some(n) => if n < 60 {
                Some(n)
            } else {
                None
            },
            None => None,
        }
    }
}

/// The seconds that `M:SS` or `H:MM:SS` stands for, the first with less than an hour,
/// the second with an hour or more.
pub open spec fn read_span(s: Seq<char>) -> Option<int> {
    let front = s.take(last_colon(s));
    match read_sixtieths(s) {
        None => None,
        Some(secs) => if last_colon(front) < 0 {
            match read_number(front) {
                Some(mins) => if mins < 60 {
                    Some(mins * 60 + secs)
                } else {
                    None
                },
                None => None,
            }
        } else {
            match (read_sixtieths(front), read_number(front.take(last_colon(front)))) {
                (Some(mins), Some(hours)) => if hours > 0 {
                    Some(hours * 3600 + mins * 60 + secs)
                } else {
                    None
                },
                _ => None,
            }
        },
    }
}

/// The seconds that a countdown shows, read off it: a minus in front for those past
/// zero.
pub open spec fn read_countdown(s: Seq<char>) -> Option<int> {
    if s.len() > 0 && s[0] == '-' {
        match read_span(s.skip(1)) {
            Some(n) => if n > 0 {
                Some(-n)
            } else {
                None
            },
            None => None,
        }
    } else {
        read_span(s)
    }
}

#[verifier::spinoff_prover]
pub proof fn lemma_decimal_reads_back(n: nat)
    ensures
        read_number(text::decimal(n)) == Some(n as int),
        last_colon(text::decimal(n)) == -1,
        text::decimal(n).len() > 0,
        text::decimal(n)[0] != '-',
    decreases n,
{
    let s = text::decimal(n);
    if n >= 10 {
        lemma_decimal_reads_back(n / 10);
        assert(s.drop_last() =~= text::decimal(n / 10));
        assert(s[0] == text::decimal(n / 10)[0]);
    } else {
        assert(s.drop_last() =~= Seq::<char>::empty());
        assert(last_colon(s.drop_last()) == -1);
    }
}

#[verifier::spinoff_prover]
pub proof fn lemma_two_digits_read_back(n: int)
    requires
        0 <= n < 100,
    ensures
        read_number(text::two_digits(n)) == Some(n),
        text::two_digits(n).len() == 2,
        text::two_digits(n)[0] != ':',
        text::two_digits(n)[1] != ':',
{
    let s = text::two_digits(n);
    assert(s.drop_last() =~= seq![s[0]]);
    assert(read_number(seq![s[0]]) == Some(n / 10));
}

/// A colon and two digits behind `front` are what the last field reads as.
#[verifier::spinoff_prover]
proof fn lemma_field_reads_back(front: Seq<char>, n: int)
    requires
        0 <= n < 60,
    ensures
        ({
            let s = front + seq![':'] + text::two_digits(n);
            &&& last_colon(s) == front.len()
            &&& s.take(last_colon(s)) == front
            &&& read_sixtieths(s) == Some(n)
        }),
{
    let d = text::two_digits(n);
    let s = front + seq![':'] + d;
    lemma_two_digits_read_back(n);
    let a = s.drop_last();
    let b = a.drop_last();
    assert(s.last() == d[1] && a.last() == d[0] && b.last() == ':');
    assert(last_colon(b) == front.len());
    assert(last_colon(a) == front.len());
    assert(s.take(front.len() as int) =~= front);
    assert(s.skip(front.len() as int + 1) =~= d);
}

/// What a countdown shows reads back as the seconds it shows: minutes and seconds below
/// an hour, hours, minutes and seconds from there on, a minus past zero.
#[verifier::spinoff_prover]
pub proof fn law_countdown_reads_back(v: int)
    ensures
        read_countdown(scene::countdown_text(v)) == Some(v),
{
    let s: int = if v < 0 {
        -v
    } else {
        v
    };
    let shown = scene::span_text(s);
    if s < 3600 {
        let head = text::decimal((s / 60) as nat);
        lemma_decimal_reads_back((s / 60) as nat);
        lemma_field_reads_back(head, s % 60);
        assert(shown =~= head + seq![':'] + text::two_digits(s % 60));
        assert(shown[0] == head[0]);
    } else {
        let head = text::decimal((s / 3600) as nat);
        let mid = head + seq![':'] + text::two_digits(s % 3600 / 60);
        lemma_decimal_reads_back((s / 3600) as nat);
        lemma_field_reads_back(head, s % 3600 / 60);
        lemma_field_reads_back(mid, s % 60);
        assert(shown =~= mid + seq![':'] + text::two_digits(s % 60));
        assert(shown[0] == head[0]);
        assert(s == s / 3600 * 3600 + s % 3600 / 60 * 60 + s % 60);
    }
    if v < 0 {
        assert(scene::countdown_text(v).skip(1) =~= shown);
    }
}

/// What a countdown to `target` shows at `now` is what remains, in seconds, rounded up.
#[verifier::spinoff_prover]
pub proof fn law_countdown_shows_what_remains(target: Timestamp, now: Timestamp)
    requires
        target.nanos() < 1_000_000_000,
        now.nanos() < 1_000_000_000,
    ensures
        ({
            let left = (target.secs() - now.secs()) * 1_000_000_000 + target.nanos() - now.nanos();
            let shown = read_countdown(scene::countdown_text(scene::secs_shown(target, now)));
            shown is Some && shown->0 * 1_000_000_000 - 1_000_000_000 < left <= shown->0
                * 1_000_000_000
        }),
{
    law_countdown_reads_back(scene::secs_shown(target, now));
}

/// The clock shows hours, minutes and seconds of the local day, which are what the
/// seconds since the epoch and the zone's offset leave of whole days; a leap second
/// shows as one more.
#[verifier::spinoff_prover]
pub proof fn law_clock_reads_as_local_time(now: Timestamp, offset: int)
    requires
        now.nanos() < 1_000_000_000,
    ensures
        ({
            let face = time::clock_face(now, offset);
            let h = read_number(face.subrange(0, 2));
            let m = read_number(face.subrange(3, 5));
            let s = read_number(face.subrange(6, 8));
            &&& face.len() == 8 && face[2] == ':' && face[5] == ':'
            &&& h is Some && m is Some && s is Some
            &&& 0 <= h->0 < 24 && 0 <= m->0 < 60 && 0 <= s->0 < 60
            &&& (now.secs() + offset - (h->0 * 3600 + m->0 * 60 + s->0)) % 86_400 == 0
        }),
{
    let local = (now.secs() + offset) % 86_400;
    lemma_time_of_day(local);
    lemma_face_reads_back(local / 3600, local % 3600 / 60, local % 60);
    assert(local % 60 + 0 == local % 60);
}

/// A leap second shows as the second after the last of its minute.
#[verifier::spinoff_prover]
pub proof fn law_leap_second_shows_as_one_more(now: Timestamp, offset: int)
    requires
        now.nanos() >= 1_000_000_000,
    ensures
        ({
            let face = time::clock_face(now, offset);
            let h = read_number(face.subrange(0, 2));
            let m = read_number(face.subrange(3, 5));
            let s = read_number(face.subrange(6, 8));
            &&& face.len() == 8 && face[2] == ':' && face[5] == ':'
            &&& h is Some && m is Some && s is Some
            &&& 0 <= h->0 < 24 && 0 <= m->0 < 60 && 1 <= s->0 <= 60
            &&& (now.secs() + offset - (h->0 * 3600 + m->0 * 60 + s->0 - 1)) % 86_400 == 0
        }),
{
    let local = (now.secs() + offset) % 86_400;
    lemma_time_of_day(local);
    lemma_face_reads_back(local / 3600, local % 3600 / 60, local % 60 + 1);
}

#[verifier::spinoff_prover]
proof fn lemma_time_of_day(local: int)
    requires
        0 <= local < 86_400,
    ensures
        0 <= local / 3600 < 24,
        0 <= local % 3600 / 60 < 60,
        0 <= local % 60 < 60,
        local / 3600 * 3600 + local % 3600 / 60 * 60 + local % 60 == local,
{
}

#[verifier::spinoff_prover]
proof fn lemma_face_reads_back(h: int, m: int, s: int)
    requires
        0 <= h < 100,
        0 <= m < 100,
        0 <= s < 100,
    ensures
        ({
            let face = text::two_digits(h) + seq![':'] + text::two_digits(m) + seq![':']
                + text::two_digits(s);
            &&& face.len() == 8 && face[2] == ':' && face[5] == ':'
            &&& read_number(face.subrange(0, 2)) == Some(h)
            &&& read_number(face.subrange(3, 5)) == Some(m)
            &&& read_number(face.subrange(6, 8)) == Some(s)
        }),
{
    let face = text::two_digits(h) + seq![':'] + text::two_digits(m) + seq![':']
        + text::two_digits(s);
    lemma_two_digits_read_back(h);
    lemma_two_digits_read_back(m);
    lemma_two_digits_read_back(s);
    assert(face.subrange(0, 2) =~= text::two_digits(h));
    assert(face.subrange(3, 5) =~= text::two_digits(m));
    assert(face.subrange(6, 8) =~= text::two_digits(s));
}

/// A colour as the pipeline takes it, opaque: two hexadecimal digits each for 255, red,
/// green and blue.
pub open spec fn opaque(c: Rgb) -> int {
    0xff00_0000 + 0x1_0000 * c.r + 0x100 * c.g + c.b
}

/// Whether `spec` shows a scene of these colours inverted, or else as they are.
pub open spec fn shows(spec: RenderSpecView, bg: Rgb, fg: Rgb, inverted: bool) -> bool {
    if inverted {
        spec.bg_argb == opaque(fg) && spec.text_argb == opaque(bg)
    } else {
        spec.bg_argb == opaque(bg) && spec.text_argb == opaque(fg)
    }
}

/// The colours of the scene are the colours on screen, swapped while it is inverted.
#[verifier::spinoff_prover]
pub proof fn law_scene_colours_are_on_screen(
    s: SceneView,
    now: Timestamp,
    c: Config,
    invert: bool,
)
    ensures
        shows(render::derived(s, now, c, invert), s.bg, s.fg, invert),
{
}

/// Whether a flash swaps the colours `t` nanoseconds into it: in every other half second,
/// the first one included, for as long as it was asked for.
pub open spec fn swaps(flash: Flash, t: int) -> bool {
    match flash {
        Flash::Off => false,
        Flash::For(d) => t < d.nanos && t % 1_000_000_000 < 500_000_000,
        Flash::Forever => t % 1_000_000_000 < 500_000_000,
    }
}

/// The nanoseconds from one reading of the forward clock to another, and none where it
/// has not gone on.
pub open spec fn gone_by(from: Duration, to: Duration) -> int {
    if to.nanos > from.nanos {
        to.nanos - from.nanos
    } else {
        0
    }
}

/// Whether a command flashes its message so: a `show` that says it, or a `canned` that
/// says it, or one that says nothing of a message that does.
pub open spec fn flashes(cfg: Config, c: CommandView, flash: Flash) -> bool {
    match c {
        CommandView::Show { flash: f, .. } => f == flash,
        CommandView::Canned { id, flash: f, .. } => cfg.canned@.contains_key(id) && (f == Some(
            flash,
        ) || (f is None && cfg.canned@[id].flash == flash)),
        _ => false,
    }
}

/// A message flashes as was asked: looked at `t` nanoseconds after it came, the screen
/// shows its colours swapped exactly in every other half second, from the first on, for
/// as long as the flash was to last; and a flash that was to last is still running then.
#[verifier::spinoff_prover]
pub proof fn law_flash_swaps_colours_as_asked(
    st: StateView,
    cfg: Config,
    c: CommandView,
    flash: Flash,
    now: Timestamp,
    clock: Duration,
    look: Timestamp,
    at: Duration,
)
    requires
        flashes(cfg, c, flash),
    ensures
        ({
            let t = gone_by(clock, at);
            let s = after(st, cfg, c, now, clock);
            let (seen, sent) = state::refreshed(s, cfg, look, at);
            &&& seen.pushed is Some
            &&& shows(seen.pushed->0, s.scene.bg, s.scene.fg, swaps(flash, t))
            &&& sent is Some ==> sent == seen.pushed
            &&& sent is None ==> s.pushed == seen.pushed
            &&& seen.flash is Some <==> (flash is Forever || flash is For && t < flash->0.nanos)
            &&& seen.scene == s.scene
        }),
{
    let t = gone_by(clock, at);
    assert((t / 1_000_000) / 500 == t / 500_000_000);
    assert(t / 500_000_000 % 2 == 0 <==> t % 1_000_000_000 < 500_000_000);
}

/// A screen that was looked at before shows the flash as one that was not: looks in
/// between change nothing of what is seen later.
#[verifier::spinoff_prover]
pub proof fn law_looks_do_not_disturb_a_flash(
    st: StateView,
    cfg: Config,
    now: Timestamp,
    clock: Duration,
    look: Timestamp,
    at: Duration,
)
    requires
        clock.nanos <= at.nanos,
        st.flash is Some ==> st.flash->0.started.nanos <= clock.nanos,
    ensures
        ({
            let before = state::refreshed(st, cfg, now, clock).0;
            state::refreshed(before, cfg, look, at).0.pushed == state::refreshed(
                st,
                cfg,
                look,
                at,
            ).0.pushed
        }),
{
}

/// `status` tells how much longer a flash runs: what was asked for less what has gone
/// by, that it has no end, or that there is none.
#[verifier::spinoff_prover]
pub proof fn law_status_tells_the_flash(
    st: StateView,
    cfg: Config,
    c: CommandView,
    flash: Flash,
    now: Timestamp,
    clock: Duration,
    look: Timestamp,
    at: Duration,
)
    requires
        flashes(cfg, c, flash),
    ensures
        ({
            let t = gone_by(clock, at);
            let s = after(st, cfg, c, now, clock);
            let told = answer(s, cfg, CommandView::Status, look, at)->Ok_0->Status_0.flash;
            let seen = state::refreshed(s, cfg, look, at).0;
            let told_then = answer(seen, cfg, CommandView::Status, look, at)->Ok_0->Status_0.flash;
            match flash {
                Flash::Off => told is None && told_then is None,
                Flash::For(d) => if t < d.nanos {
                    &&& told is Some && told->0 is Timed && told_then == told
                    &&& told->0->remaining.nanos == d.nanos - t
                } else {
                    &&& told is Some && told->0 is Timed && told->0->remaining.nanos == 0
                    &&& told_then is None
                },
                Flash::Forever => told == Some(FlashStatus::Forever { infinite: true })
                    && told_then == told,
            }
        }),
{
}

/// The screen is looked at twenty times a second while a flash runs and four times a
/// second otherwise, so that no swap of the colours is late by more than a tenth of its
/// half second.
#[verifier::spinoff_prover]
pub proof fn law_looks_keep_up_with_the_flash(st: StateView)
    ensures
        st.flash is Some ==> 0 < 10 * state::tick_of(st.flash) <= 500,
        st.flash is None ==> state::tick_of(st.flash) == 250,
{
}

/// A screen without a flash shows the scene as it is, and is sent it only if it did not
/// show it before.
#[verifier::spinoff_prover]
pub proof fn law_steady_screen_shows_the_scene(
    st: StateView,
    cfg: Config,
    now: Timestamp,
    clock: Duration,
)
    requires
        st.flash is None,
    ensures
        ({
            let (seen, sent) = state::refreshed(st, cfg, now, clock);
            let spec = render::derived(st.scene, now, cfg, false);
            &&& seen == (StateView { pushed: Some(spec), ..st })
            &&& st.pushed == Some(spec) ==> sent is None
            &&& st.pushed != Some(spec) ==> sent == Some(spec)
        }),
{
}

/// The value of a hexadecimal digit of either case, by how far it is from the first.
pub open spec fn read_hex(c: char) -> Option<int> {
    if '0' <= c <= '9' {
        Some(c as int - '0' as int)
    } else if 'a' <= c <= 'f' {
        Some(10 + (c as int - 'a' as int))
    } else if 'A' <= c <= 'F' {
        Some(10 + (c as int - 'A' as int))
    } else {
        None
    }
}

/// What two hexadecimal digits from `i` on stand for.
pub open spec fn read_byte(s: Seq<char>, i: int) -> Option<int> {
    match (read_hex(s[i]), read_hex(s[i + 1])) {
        (Some(a), Some(b)) => Some(16 * a + b),
        _ => None,
    }
}

/// The colour that six hexadecimal digits stand for, red first and blue last.
pub open spec fn read_digits(s: Seq<char>) -> Option<Rgb> {
    if s.len() != 6 {
        None
    } else {
        match (read_byte(s, 0), read_byte(s, 2), read_byte(s, 4)) {
            (Some(r), Some(g), Some(b)) => Some(Rgb { r: r as u8, g: g as u8, b: b as u8 }),
            _ => None,
        }
    }
}

/// The colour that a text stands for: six hexadecimal digits, or `#` and six.
pub open spec fn read_colour(s: Seq<char>) -> Option<Rgb> {
    if s.len() == 7 && s[0] == '#' {
        read_digits(s.skip(1))
    } else {
        read_digits(s)
    }
}

#[verifier::spinoff_prover]
proof fn lemma_byte_reads(s: Seq<char>, i: int)
    ensures
        read_byte(s, i) is Some <==> scene::is_hex(s[i]) && scene::is_hex(s[i + 1]),
        read_byte(s, i) is Some ==> read_byte(s, i)->0 == scene::hex_value(s[i]) * 16
            + scene::hex_value(s[i + 1]) && 0 <= read_byte(s, i)->0 < 256,
{
}

#[verifier::spinoff_prover]
proof fn lemma_digits_read(h: Seq<char>)
    requires
        h.len() == 6,
    ensures
        read_digits(h) is Some <==> forall|i: int| 0 <= i < 6 ==> scene::is_hex(#[trigger] h[i]),
        read_digits(h) is Some ==> read_digits(h)->0 == (Rgb {
            r: (scene::hex_value(h[0]) * 16 + scene::hex_value(h[1])) as u8,
            g: (scene::hex_value(h[2]) * 16 + scene::hex_value(h[3])) as u8,
            b: (scene::hex_value(h[4]) * 16 + scene::hex_value(h[5])) as u8,
        }),
{
    lemma_byte_reads(h, 0);
    lemma_byte_reads(h, 2);
    lemma_byte_reads(h, 4);
    if read_digits(h) is Some {
        assert forall|i: int| 0 <= i < 6 implies scene::is_hex(#[trigger] h[i]) by {
            assert(i == 0 || i == 1 || i == 2 || i == 3 || i == 4 || i == 5);
        }
    } else {
        assert(!scene::is_hex(h[0]) || !scene::is_hex(h[1]) || !scene::is_hex(h[2])
            || !scene::is_hex(h[3]) || !scene::is_hex(h[4]) || !scene::is_hex(h[5]));
    }
}

#[verifier::spinoff_prover]
proof fn lemma_shown_byte_reads(b: u8, s: Seq<char>, i: int)
    requires
        s[i] == scene::hex_digit(b as int / 16),
        s[i + 1] == scene::hex_digit(b as int % 16),
    ensures
        read_byte(s, i) == Some(b as int),
{
    assert(0 <= b as int / 16 < 16 && 0 <= b as int % 16 < 16);
    assert(read_hex(scene::hex_digit(b as int / 16)) == Some(b as int / 16));
    assert(read_hex(scene::hex_digit(b as int % 16)) == Some(b as int % 16));
}

#[verifier::spinoff_prover]
proof fn lemma_text_reads_as_colour(s: Seq<char>)
    ensures
        scene::spells_colour(s) <==> read_colour(s) is Some,
        read_colour(s) is Some ==> scene::colour_in(s) == read_colour(s)->0,
{
    let h = scene::without_hash(s);
    if s.len() == 7 && s[0] == '#' {
        assert(h == s.skip(1));
        lemma_digits_read(h);
    } else if s.len() == 6 && s[0] == '#' {
        assert(h.len() == 5);
        assert(read_hex(s[0]) is None);
    } else if s.len() == 6 {
        lemma_digits_read(h);
    }
}

/// A text is taken for the colour it reads as, and refused where it reads as none; and
/// what is shown of a colour reads as that colour.
#[verifier::spinoff_prover]
pub proof fn law_colours_read_as_written(s: Seq<char>, c: Rgb)
    ensures
        scene::spells_colour(s) <==> read_colour(s) is Some,
        read_colour(s) is Some ==> scene::colour_in(s) == read_colour(s)->0,
        read_colour(c.shown()) == Some(c),
        c.shown().len() == 6,
        read_colour(s) is Some ==> command::colour_arg(s) == Ok::<Rgb, CommandErrorView>(
            read_colour(s)->0,
        ),
        read_colour(s) is None ==> command::colour_arg(s) is Err && command::colour_arg(
            s,
        )->Err_0 is BadColour,
{
    lemma_text_reads_as_colour(s);
    lemma_shown_reads(c);
}

#[verifier::spinoff_prover]
proof fn lemma_shown_reads(c: Rgb)
    ensures
        read_colour(c.shown()) == Some(c),
        c.shown().len() == 6,
{
    let t = c.shown();
    assert(t[0] == scene::hex_byte(c.r)[0] && t[1] == scene::hex_byte(c.r)[1]);
    assert(t[2] == scene::hex_byte(c.g)[0] && t[3] == scene::hex_byte(c.g)[1]);
    assert(t[4] == scene::hex_byte(c.b)[0] && t[5] == scene::hex_byte(c.b)[1]);
    lemma_shown_byte_reads(c.r, t, 0);
    lemma_shown_byte_reads(c.g, t, 2);
    lemma_shown_byte_reads(c.b, t, 4);
}

/// Whether `nanos` nanoseconds are what `m` of `2^k` parts of a second come to, to the
/// nearest.
pub open spec fn are_nanos_of(nanos: int, m: int, k: nat) -> bool {
    &&& 2 * (nanos * pow2(k) - m * 1_000_000_000) <= pow2(k)
    &&& 2 * (m * 1_000_000_000 - nanos * pow2(k)) <= pow2(k)
}

/// A flash of a number of seconds lasts that long, to the nearest nanosecond, up to a
/// day; longer ones are refused. The number is a double: `m` of `2^k` parts of a second,
/// its bits those of `m` and `k`.
#[verifier::spinoff_prover]
pub proof fn law_flash_lasts_the_seconds_given(s: SecondsView, e: int, f: int)
    requires
        0 <= f < 0x10_0000_0000_0000,
        0 <= e <= 1075,
        e > 0 || f > 0,
        s.bits == e * 0x10_0000_0000_0000 + f,
    ensures
        ({
            let m = if e == 0 {
                f
            } else {
                f + 0x10_0000_0000_0000
            };
            let k = (if e == 0 {
                1074int
            } else {
                1075 - e
            }) as nat;
            let r = scene::seconds_flash(s);
            &&& m > 86_400 * pow2(k) <==> r is Err
            &&& r is Ok ==> r->Ok_0 is For && are_nanos_of(r->Ok_0->0.nanos as int, m, k)
        }),
{
    lemma_bits_are_parts(s.bits, e, f);
    let m = seconds::significand(s.bits);
    let k = (-seconds::binary_exponent(s.bits)) as nat;
    lemma_pow2_pos(k);
    if k == 0 {
        lemma2_to64();
    }
    if m <= 86_400 * pow2(k) {
        lemma_nanos_of_parts(m, k);
    }
}

#[verifier::spinoff_prover]
proof fn lemma_bits_are_parts(bits: u64, e: int, f: int)
    requires
        0 <= f < 0x10_0000_0000_0000,
        0 <= e <= 1075,
        e > 0 || f > 0,
        bits == e * 0x10_0000_0000_0000 + f,
    ensures
        seconds::significand(bits) == (if e == 0 {
            f
        } else {
            f + 0x10_0000_0000_0000
        }),
        -seconds::binary_exponent(bits) == (if e == 0 {
            1074
        } else {
            1075 - e
        }),
        !seconds::is_nan(bits),
        !seconds::is_infinite(bits),
        !seconds::is_zero(bits),
        !seconds::is_signed(bits),
{
    lemma_fundamental_div_mod_converse(bits as int, 0x10_0000_0000_0000, e, f);
}

#[verifier::spinoff_prover]
proof fn lemma_nanos_of_parts(m: int, k: nat)
    requires
        0 <= m <= 86_400 * pow2(k),
    ensures
        ({
            let n = seconds::nearest((m * 1_000_000_000) as nat, pow2(k));
            n <= 86_400_000_000_001 && are_nanos_of(n as int, m, k)
        }),
{
    lemma_pow2_pos(k);
    let p = pow2(k) as int;
    lemma_nanos_are_nearest((m * 1_000_000_000) as nat, pow2(k));
    let n = seconds::nearest((m * 1_000_000_000) as nat, pow2(k)) as int;
    assert(m * 1_000_000_000 <= 86_400_000_000_000 * p);
    assert(n <= 86_400_000_000_001) by (nonlinear_arith)
        requires
            2 * (n * p - m * 1_000_000_000) <= p,
            m * 1_000_000_000 <= 86_400_000_000_000 * p,
            p >= 1,
    ;
}

#[verifier::spinoff_prover]
proof fn lemma_nanos_are_nearest(n: nat, d: nat)
    requires
        d >= 1,
    ensures
        2 * (seconds::nearest(n, d) * d - n) <= d,
        2 * (n - seconds::nearest(n, d) * d) <= d,
{
    lemma_fundamental_div_mod(n as int, d as int);
    lemma_mod_bound(n as int, d as int);
    let q = (n / d) as int;
    assert((q + 1) * d == d * q + d) by (nonlinear_arith);
    assert(q * d == d * q) by (nonlinear_arith);
}

/// A flash of a whole number of seconds, up to a day, lasts exactly so many.
#[verifier::spinoff_prover]
pub proof fn law_flash_lasts_whole_seconds(s: SecondsView, n: int, e: int, f: int)
    requires
        1 <= n <= 86_400,
        1 <= e <= 1075,
        0 <= f < 0x10_0000_0000_0000,
        f + 0x10_0000_0000_0000 == n * pow2((1075 - e) as nat),
        s.bits == e * 0x10_0000_0000_0000 + f,
    ensures
        scene::seconds_flash(s) == Ok::<Flash, Seq<char>>(
            Flash::For(Duration { nanos: (n * 1_000_000_000) as u128 }),
        ),
{
    law_flash_lasts_the_seconds_given(s, e, f);
    let k = (1075 - e) as nat;
    let m = f + 0x10_0000_0000_0000;
    lemma_pow2_pos(k);
    assert(m <= 86_400 * pow2(k)) by (nonlinear_arith)
        requires
            m == n * pow2(k),
            n <= 86_400,
    ;
    let d = scene::seconds_flash(s)->Ok_0->0.nanos as int;
    assert(d == n * 1_000_000_000) by (nonlinear_arith)
        requires
            2 * (d * pow2(k) - m * 1_000_000_000) <= pow2(k),
            2 * (m * 1_000_000_000 - d * pow2(k)) <= pow2(k),
            m == n * pow2(k),
            pow2(k) >= 1,
    ;
}

/// Zero seconds, of either sign, is no flash; fewer than zero, however many, is one
/// without end; what is no number is refused, and so is more than any number.
#[verifier::spinoff_prover]
pub proof fn law_flash_of_odd_seconds(s: SecondsView)
    ensures
        s.bits == 0 || s.bits == 0x8000_0000_0000_0000 ==> scene::seconds_flash(s) == Ok::<
            Flash,
            Seq<char>,
        >(Flash::Off),
        0x8000_0000_0000_0000 < s.bits <= 0xfff0_0000_0000_0000 ==> scene::seconds_flash(s)
            == Ok::<Flash, Seq<char>>(Flash::Forever),
        0x7ff0_0000_0000_0000 <= s.bits <= 0x7fff_ffff_ffff_ffff || s.bits > 0xfff0_0000_0000_0000
            ==> scene::seconds_flash(s) is Err,
        0x4340_0000_0000_0000 <= s.bits < 0x7ff0_0000_0000_0000 ==> scene::seconds_flash(s) is Err,
{
    if 0x4340_0000_0000_0000 <= s.bits < 0x7ff0_0000_0000_0000 {
        let e = seconds::binary_exponent(s.bits);
        assert(e >= 0);
        lemma_pow2_pos(e as nat);
        assert(seconds::significand(s.bits) * pow2(e as nat) > 86_400) by (nonlinear_arith)
            requires
                seconds::significand(s.bits) > 86_400,
                pow2(e as nat) >= 1,
        ;
    }
}

/// A yes or no, and a whole number that is not or is zero, is a flash of three seconds or
/// none; a number of seconds is the flash of so many.
#[verifier::spinoff_prover]
pub proof fn law_flash_arguments(n: i32, l: i64, b: bool, secs: SecondsView, shown: Seq<char>)
    ensures
        ({
            let three = Flash::For(Duration { nanos: 3_000_000_000 });
            let in_secs = scene::seconds_flash(secs);
            &&& command::asked_flash(ArgView::Int(n)) == Some(
                if n != 0 {
                    three
                } else {
                    Flash::Off
                },
            )
            &&& command::asked_flash(ArgView::Long(l)) == Some(
                if l != 0 {
                    three
                } else {
                    Flash::Off
                },
            )
            &&& command::asked_flash(ArgView::Bool(b)) == Some(
                if b {
                    three
                } else {
                    Flash::Off
                },
            )
            &&& in_secs is Ok ==> command::asked_flash(ArgView::Float { secs, shown }) == Some(
                in_secs->Ok_0,
            ) && command::asked_flash(ArgView::Double { secs, shown }) == Some(in_secs->Ok_0)
            &&& in_secs is Err ==> command::asked_flash(ArgView::Float { secs, shown }) is None
                && command::asked_flash(ArgView::Double { secs, shown }) is None
            &&& scene::switched(b) == (if b {
                three
            } else {
                Flash::Off
            })
        }),
{
}

/// In a table, `duration_s` is the same flash as the bare number, and `infinite = true`
/// is one without end.
#[verifier::spinoff_prover]
pub proof fn law_flash_table_entries(secs: seconds::Seconds, key: String)
    ensures
        scene::table_with(None, FlashField::DurationS(secs)) == (match scene::seconds_flash(secs@) {
            Ok(f) => Ok::<Option<Flash>, Seq<char>>(Some(f)),
            Err(e) => Err(e),
        }),
        scene::table_with(None, FlashField::Infinite(true)) == Ok::<Option<Flash>, Seq<char>>(
            Some(Flash::Forever),
        ),
        scene::table_with(None, FlashField::Infinite(false)) is Err,
        scene::table_with(None, FlashField::Unknown(key)) is Err,
{
}

/// A flash table that is refused is told what to write instead: of an entry that cannot
/// be, of one too many, and of none.
#[verifier::spinoff_prover]
pub proof fn law_flash_table_complaints(t: Option<Flash>, f: Flash, field: FlashField, key: String)
    ensures
        scene::table_with(t, FlashField::Infinite(false)) == Err::<Option<Flash>, Seq<char>>(
            "flash infinite = false is ambiguous; use flash = false to turn flashing off, or give duration_s"@,
        ),
        scene::table_with(t, FlashField::Unknown(key)) == Err::<Option<Flash>, Seq<char>>(
            "unknown flash field "@ + text::debug_quoted(key@)
                + ", expected duration_s or infinite"@,
        ),
        scene::table_with(None, field) is Ok ==> scene::table_with(Some(f), field) == Err::<
            Option<Flash>,
            Seq<char>,
        >("flash takes duration_s or infinite, not both"@),
        scene::table_flash(None) == Err::<Flash, Seq<char>>(
            "flash table needs duration_s or infinite"@,
        ),
        scene::table_flash(Some(f)) == Ok::<Flash, Seq<char>>(f),
{
}

/// No two addresses are alike.
#[verifier::spinoff_prover]
proof fn lemma_addresses_differ()
    ensures
        "/placard/canned"@ != "/placard/show"@,
        "/placard/colour"@ != "/placard/show"@,
        "/placard/colour"@ != "/placard/canned"@,
        "/placard/countdown/to"@ != "/placard/show"@,
        "/placard/countdown/to"@ != "/placard/canned"@,
        "/placard/countdown/to"@ != "/placard/colour"@,
        "/placard/countdown/secs"@ != "/placard/show"@,
        "/placard/countdown/secs"@ != "/placard/canned"@,
        "/placard/countdown/secs"@ != "/placard/colour"@,
        "/placard/countdown/secs"@ != "/placard/countdown/to"@,
        "/placard/clear"@ != "/placard/show"@,
        "/placard/clear"@ != "/placard/canned"@,
        "/placard/clear"@ != "/placard/colour"@,
        "/placard/clear"@ != "/placard/countdown/to"@,
        "/placard/clear"@ != "/placard/countdown/secs"@,
        "/placard/status"@ != "/placard/show"@,
        "/placard/status"@ != "/placard/canned"@,
        "/placard/status"@ != "/placard/colour"@,
        "/placard/status"@ != "/placard/countdown/to"@,
        "/placard/status"@ != "/placard/countdown/secs"@,
        "/placard/status"@ != "/placard/clear"@,
        "/placard/history"@ != "/placard/show"@,
        "/placard/history"@ != "/placard/canned"@,
        "/placard/history"@ != "/placard/colour"@,
        "/placard/history"@ != "/placard/countdown/to"@,
        "/placard/history"@ != "/placard/countdown/secs"@,
        "/placard/history"@ != "/placard/clear"@,
        "/placard/history"@ != "/placard/status"@,
{
    reveal_strlit("/placard/show");
    reveal_strlit("/placard/canned");
    reveal_strlit("/placard/colour");
    reveal_strlit("/placard/countdown/to");
    reveal_strlit("/placard/countdown/secs");
    reveal_strlit("/placard/clear");
    reveal_strlit("/placard/status");
    reveal_strlit("/placard/history");
    assert("/placard/show"@.len() == 13);
    assert("/placard/canned"@.len() == 15 && "/placard/canned"@[10] == 'a');
    assert("/placard/colour"@.len() == 15 && "/placard/colour"@[10] == 'o');
    assert("/placard/status"@.len() == 15 && "/placard/status"@[10] == 't');
    assert("/placard/countdown/to"@.len() == 21);
    assert("/placard/countdown/secs"@.len() == 23);
    assert("/placard/clear"@.len() == 14);
    assert("/placard/history"@.len() == 16);
}

/// What an OSC message reads as.
pub open spec fn reads(addr: Seq<char>, args: Seq<ArgView>) -> Result<
    CommandView,
    CommandErrorView,
> {
    command::osc_command(MessageView { addr, args })
}

/// Whether a message is refused for its arguments, by its address.
pub open spec fn refused(addr: Seq<char>, args: Seq<ArgView>) -> bool {
    reads(addr, args) is Err && reads(addr, args)->Err_0 is WrongArgs && reads(
        addr,
        args,
    )->Err_0->addr == addr
}

/// A countdown of seconds over OSC is one of exactly that many, with the label that
/// follows, if one does.
#[verifier::spinoff_prover]
pub proof fn law_osc_countdown_of_seconds(n: i32, label: Seq<char>)
    requires
        n >= 0,
    ensures
        ({
            let addr = "/placard/countdown/secs"@;
            let bare = reads(addr, seq![ArgView::Int(n)]);
            let named = reads(addr, seq![ArgView::Int(n), ArgView::String(label)]);
            &&& bare is Ok && bare->Ok_0 is CountdownSecs
            &&& bare->Ok_0->secs == n
            &&& bare->Ok_0->CountdownSecs_label is None
            &&& bare->Ok_0->CountdownSecs_bg is None && bare->Ok_0->CountdownSecs_fg is None
            &&& named is Ok && named->Ok_0 is CountdownSecs
            &&& named->Ok_0->secs == n
            &&& named->Ok_0->CountdownSecs_label == Some(label)
            &&& named->Ok_0->CountdownSecs_bg is None && named->Ok_0->CountdownSecs_fg is None
        }),
{
    lemma_addresses_differ();
}

/// A countdown of seconds needs a whole number that is not negative, and takes nothing
/// after it but one label.
#[verifier::spinoff_prover]
pub proof fn law_osc_countdown_of_seconds_takes_no_other(args: Seq<ArgView>)
    requires
        args.len() == 0 || !(args[0] is Int) || args[0]->Int_0 < 0 || args.len() > 2 || (args.len()
            == 2 && !(args[1] is String)),
    ensures
        refused("/placard/countdown/secs"@, args),
{
    lemma_addresses_differ();
}

/// A countdown to an instant over OSC is one to the instant that its text names, with the
/// label that follows, if one does; a text that names none is refused by itself.
#[verifier::spinoff_prover]
pub proof fn law_osc_countdown_to_an_instant(when: Seq<char>, label: Seq<char>)
    ensures
        ({
            let addr = "/placard/countdown/to"@;
            let bare = reads(addr, seq![ArgView::String(when)]);
            let named = reads(addr, seq![ArgView::String(when), ArgView::String(label)]);
            match time::iso_instant(when) {
                Some((secs, nanos)) => {
                    &&& bare is Ok && bare->Ok_0 is CountdownTo
                    &&& bare->Ok_0->target.secs() == secs && bare->Ok_0->target.nanos() == nanos
                    &&& bare->Ok_0->CountdownTo_label is None
                    &&& bare->Ok_0->CountdownTo_bg is None && bare->Ok_0->CountdownTo_fg is None
                    &&& named is Ok && named->Ok_0 is CountdownTo
                    &&& named->Ok_0->target.secs() == secs && named->Ok_0->target.nanos() == nanos
                    &&& named->Ok_0->CountdownTo_label == Some(label)
                    &&& named->Ok_0->CountdownTo_bg is None && named->Ok_0->CountdownTo_fg is None
                },
                None => {
                    &&& bare == Err::<CommandView, CommandErrorView>(
                        CommandErrorView::BadTimestamp(when),
                    )
                    &&& named == bare
                },
            }
        }),
{
    lemma_addresses_differ();
    if time::iso_names(when) {
        time::lemma_iso_timestamp(when);
    }
}

/// A countdown to an instant needs a text, and takes nothing after it but one label.
#[verifier::spinoff_prover]
pub proof fn law_osc_countdown_to_takes_no_other(args: Seq<ArgView>)
    requires
        args.len() == 0 || !(args[0] is String) || (time::iso_instant(args[0]->String_0) is Some
            && (args.len() > 2 || (args.len() == 2 && !(args[1] is String)))),
    ensures
        refused("/placard/countdown/to"@, args),
{
    lemma_addresses_differ();
}

/// `colour` over OSC is the colour or the two colours that its texts stand for, the
/// background first; one that stands for none is refused as a colour.
#[verifier::spinoff_prover]
pub proof fn law_osc_colour(bg: Seq<char>, fg: Seq<char>)
    ensures
        ({
            let addr = "/placard/colour"@;
            let one = reads(addr, seq![ArgView::String(bg)]);
            let two = reads(addr, seq![ArgView::String(bg), ArgView::String(fg)]);
            &&& read_colour(bg) is Some ==> one == Ok::<CommandView, CommandErrorView>(
                CommandView::Colour { bg: read_colour(bg), fg: None },
            )
            &&& read_colour(bg) is Some && read_colour(fg) is Some ==> two == Ok::<
                CommandView,
                CommandErrorView,
            >(CommandView::Colour { bg: read_colour(bg), fg: read_colour(fg) })
            &&& read_colour(bg) is None ==> one is Err && one->Err_0 is BadColour
            &&& read_colour(bg) is None || read_colour(fg) is None ==> two is Err
                && two->Err_0 is BadColour
        }),
{
    lemma_addresses_differ();
    lemma_text_reads_as_colour(bg);
    lemma_text_reads_as_colour(fg);
}

/// `colour` needs a text, and takes nothing after it but one more.
#[verifier::spinoff_prover]
pub proof fn law_osc_colour_takes_no_other(args: Seq<ArgView>)
    requires
        args.len() == 0 || !(args[0] is String) || (read_colour(args[0]->String_0) is Some && ((
        args.len() >= 2 && !(args[1] is String)) || (args.len() > 2 && args[1] is String
            && read_colour(args[1]->String_0) is Some))),
    ensures
        refused("/placard/colour"@, args),
{
    lemma_addresses_differ();
    if args.len() > 0 && args[0] is String {
        lemma_text_reads_as_colour(args[0]->String_0);
        if args.len() > 1 && args[1] is String {
            lemma_text_reads_as_colour(args[1]->String_0);
        }
    }
}

/// `clear` takes no arguments; the queries are not for OSC, whatever their arguments; and
/// any other address is refused by itself.
#[verifier::spinoff_prover]
pub proof fn law_osc_other_addresses(addr: Seq<char>, args: Seq<ArgView>)
    ensures
        args.len() == 0 ==> reads("/placard/clear"@, args) == Ok::<CommandView, CommandErrorView>(
            CommandView::Clear,
        ),
        args.len() > 0 ==> refused("/placard/clear"@, args),
        reads("/placard/status"@, args) == Err::<CommandView, CommandErrorView>(
            CommandErrorView::QueryNotSupported("status"@),
        ),
        reads("/placard/history"@, args) == Err::<CommandView, CommandErrorView>(
            CommandErrorView::QueryNotSupported("history"@),
        ),
        !(seq![
            "/placard/show"@,
            "/placard/canned"@,
            "/placard/colour"@,
            "/placard/countdown/to"@,
            "/placard/countdown/secs"@,
            "/placard/clear"@,
            "/placard/status"@,
            "/placard/history"@,
        ].contains(addr)) ==> reads(addr, args) == Err::<CommandView, CommandErrorView>(
            CommandErrorView::UnknownAddress(addr),
        ),
{
    lemma_addresses_differ();
    let all = seq![
        "/placard/show"@,
        "/placard/canned"@,
        "/placard/colour"@,
        "/placard/countdown/to"@,
        "/placard/countdown/secs"@,
        "/placard/clear"@,
        "/placard/status"@,
        "/placard/history"@,
    ];
    if !all.contains(addr) {
        assert(addr != all[0] && addr != all[1] && addr != all[2] && addr != all[3] && addr
            != all[4] && addr != all[5] && addr != all[6] && addr != all[7]);
    }
}

/// The colour that the text at `i` stands for, if there is a text at `i`.
pub open spec fn read_colour_at(colours: Seq<Seq<char>>, i: int) -> Option<Rgb> {
    if 0 <= i < colours.len() {
        read_colour(colours[i])
    } else {
        None
    }
}

/// `show` and `canned` over OSC: the leading text is what is shown, or the id; up to two
/// texts after it are the background and the foreground; one argument that asks for a
/// flash may stand anywhere among those, and without one `show` is steady and `canned`
/// flashes as its message does.
#[verifier::spinoff_prover]
pub proof fn law_osc_show_and_canned(
    leading: Seq<char>,
    colours: Seq<Seq<char>>,
    flash: ArgView,
    at: int,
)
    requires
        colours.len() <= 2,
        forall|i: int| 0 <= i < colours.len() ==> read_colour(#[trigger] colours[i]) is Some,
        command::asked_flash(flash) is Some,
        0 <= at <= colours.len(),
    ensures
        ({
            let texts = Seq::new(colours.len(), |i: int| ArgView::String(colours[i]));
            let steady = seq![ArgView::String(leading)] + texts;
            let flashing = seq![ArgView::String(leading)] + texts.insert(at, flash);
            let bg = read_colour_at(colours, 0);
            let fg = read_colour_at(colours, 1);
            &&& reads("/placard/show"@, steady) == Ok::<CommandView, CommandErrorView>(
                CommandView::Show { text: leading, bg, fg, flash: Flash::Off },
            )
            &&& reads("/placard/show"@, flashing) == Ok::<CommandView, CommandErrorView>(
                CommandView::Show { text: leading, bg, fg, flash: command::asked_flash(flash)->0 },
            )
            &&& reads("/placard/canned"@, steady) == Ok::<CommandView, CommandErrorView>(
                CommandView::Canned { id: leading, bg, fg, flash: None },
            )
            &&& reads("/placard/canned"@, flashing) == Ok::<CommandView, CommandErrorView>(
                CommandView::Canned { id: leading, bg, fg, flash: command::asked_flash(flash) },
            )
        }),
{
    assert forall|i: int| 0 <= i < colours.len() implies scene::spells_colour(
        #[trigger] colours[i],
    ) by {
        lemma_text_reads_as_colour(colours[i]);
    }
    if colours.len() > 0 {
        lemma_text_reads_as_colour(colours[0]);
    }
    if colours.len() > 1 {
        lemma_text_reads_as_colour(colours[1]);
    }
    assert(Seq::new(colours.len(), |i: int| ArgView::String(colours[i])) =~= command::string_args(
        colours,
    ));
    command::law_tail_reads_the_same_wherever_the_flash_stands(leading, colours, flash, at);
}

/// `show` and `canned` need a leading text.
#[verifier::spinoff_prover]
pub proof fn law_osc_show_and_canned_need_a_text(args: Seq<ArgView>)
    requires
        args.len() == 0 || !(args[0] is String),
    ensures
        refused("/placard/show"@, args),
        refused("/placard/canned"@, args),
{
    lemma_addresses_differ();
}

/// Whether an argument can ask for a flash, of whatever kind.
pub open spec fn is_number(a: ArgView) -> bool {
    a is Int || a is Long || a is Bool || a is Float || a is Double
}

/// One argument too many spoils `show` and `canned`: a third colour, a second flash, or
/// one that is neither; and so does a colour or a number of seconds that does not read.
#[verifier::spinoff_prover]
pub proof fn law_osc_show_and_canned_take_no_other(
    addr: Seq<char>,
    leading: Seq<char>,
    good: Seq<ArgView>,
    extra: ArgView,
)
    requires
        addr == "/placard/show"@ || addr == "/placard/canned"@,
        reads(addr, seq![ArgView::String(leading)] + good) is Ok,
    ensures
        ({
            let args = seq![ArgView::String(leading)] + good.push(extra);
            let strings = good.filter(|a: ArgView| a is String).len();
            let numbers = good.filter(|a: ArgView| is_number(a)).len();
            &&& extra is Other ==> refused(addr, args)
            &&& extra is String && strings >= 2 ==> refused(addr, args)
            &&& is_number(extra) && numbers >= 1 ==> refused(addr, args)
            &&& extra is String && strings < 2 && read_colour(extra->String_0) is None ==> reads(
                addr,
                args,
            ) is Err && reads(addr, args)->Err_0 is BadColour
            &&& is_number(extra) && numbers == 0 && command::asked_flash(extra) is None ==> reads(
                addr,
                args,
            ) is Err && reads(addr, args)->Err_0 is BadFlash
            &&& extra is String && strings < 2 && read_colour(extra->String_0) is Some ==> reads(
                addr,
                args,
            ) is Ok
            &&& is_number(extra) && numbers == 0 && command::asked_flash(extra) is Some ==> reads(
                addr,
                args,
            ) is Ok
        }),
{
    lemma_addresses_differ();
    let first = seq![ArgView::String(leading)];
    let args = first + good.push(extra);
    assert((first + good).skip(1) =~= good);
    assert(args.skip(1) =~= good.push(extra));
    assert(good.push(extra).drop_last() =~= good);
    let wrong = if addr == "/placard/show"@ {
        CommandErrorView::WrongArgs { addr, expected: "s text [s bg] [s fg] [i flash | f seconds]"@ }
    } else {
        CommandErrorView::WrongArgs { addr, expected: "s id [s bg] [s fg] [i flash | f seconds]"@ }
    };
    assert(command::tail_of(good, wrong) is Ok);
    lemma_tail_counts(good, wrong);
    if let ArgView::String(t) = extra {
        lemma_text_reads_as_colour(t);
    }
}

/// A tail has as many colours and flashes as it has texts and numbers.
#[verifier::spinoff_prover]
proof fn lemma_tail_counts(args: Seq<ArgView>, wrong: CommandErrorView)
    requires
        command::tail_of(args, wrong) is Ok,
    ensures
        ({
            let t = command::tail_of(args, wrong)->Ok_0;
            let strings = args.filter(|a: ArgView| a is String).len();
            let numbers = args.filter(|a: ArgView| is_number(a)).len();
            &&& strings == (if t.bg is None {
                0nat
            } else if t.fg is None {
                1nat
            } else {
                2nat
            })
            &&& numbers == (if t.flash is None {
                0nat
            } else {
                1nat
            })
            &&& t.bg is None ==> t.fg is None
        }),
    decreases args.len(),
{
    reveal(Seq::filter);
    if args.len() > 0 {
        lemma_tail_counts(args.drop_last(), wrong);
    }
}

/// Whether `whole` starts with `part`, ends with `end`, and is nothing more.
pub open spec fn is_made_of(whole: Seq<char>, part: Seq<char>, end: Seq<char>) -> bool {
    &&& whole.len() == part.len() + end.len()
    &&& forall|i: int| 0 <= i < part.len() ==> whole[i] == part[i]
    &&& forall|i: int| 0 <= i < end.len() ==> whole[part.len() + i] == end[i]
}

/// A message that is not a query is put into the history as it came: when, by what way,
/// from whom, whether it was accepted and if not why, and what it said, cut to 512
/// characters and an ellipsis if it was longer. The history keeps the last 200.
#[verifier::spinoff_prover]
pub proof fn law_messages_are_remembered_as_they_came(
    st: StateView,
    cfg: Config,
    env: EnvelopeView,
    now: Timestamp,
    clock: Duration,
)
    requires
        !(env.command matches Ok(CommandView::Status)),
        !(env.command matches Ok(CommandView::History)),
    ensures
        ({
            let (s, out) = state::handled(st, cfg, env, now, clock);
            let e = out.entry->0;
            &&& out.entry is Some
            &&& e.at == now
            &&& e.via == env.via
            &&& e.from == env.from
            &&& e.ok <==> out.answer is Ok
            &&& e.error is Some <==> out.answer is Err
            &&& out.answer is Err ==> e.error->0 == command::complaint(out.answer->Err_0)
            &&& env.raw.len() <= 512 ==> e.raw == env.raw
            &&& env.raw.len() > 512 ==> e.raw.len() == 513 && e.raw[512] == '…' && forall|i: int|
                0 <= i < 512 ==> e.raw[i] == env.raw[i]
            &&& s.history.len() == (if st.history.len() < 200 {
                st.history.len() + 1
            } else {
                st.history.len()
            })
            &&& s.history.len() > 0 && s.history[s.history.len() - 1] == e
            &&& forall|i: int|
                0 <= i < s.history.len() - 1 ==> #[trigger] s.history[i] == st.history[i + (
                st.history.len() - (s.history.len() - 1))]
        }),
{
}

/// A message does what its command does, is answered as its command is, and a message
/// that is no command is answered with what is wrong with it.
#[verifier::spinoff_prover]
pub proof fn law_messages_do_what_they_say(
    st: StateView,
    cfg: Config,
    env: EnvelopeView,
    now: Timestamp,
    clock: Duration,
)
    ensures
        ({
            let (s, out) = state::handled(st, cfg, env, now, clock);
            &&& env.command is Err ==> out.answer == Err::<ReplyView, CommandErrorView>(
                env.command->Err_0,
            ) && s.scene == st.scene && s.canned_id == st.canned_id && s.flash == st.flash
            &&& env.command is Ok ==> {
                let done = after(st, cfg, env.command->Ok_0, now, clock);
                &&& out.answer == answer(st, cfg, env.command->Ok_0, now, clock)
                &&& s.scene == done.scene
                &&& s.canned_id == done.canned_id
                &&& s.flash == done.flash
            }
            &&& s.started == st.started
            &&& s.pushed == st.pushed
            &&& s.appends == st.appends
            &&& s.release == st.release
        }),
{
}

/// What is persisted is what is on screen: accepted messages that are not queries hand
/// over the scene, its name, and whether it flashes without end; nothing else does.
#[verifier::spinoff_prover]
pub proof fn law_the_screen_is_persisted(
    st: StateView,
    cfg: Config,
    env: EnvelopeView,
    now: Timestamp,
    clock: Duration,
)
    ensures
        ({
            let (s, out) = state::handled(st, cfg, env, now, clock);
            let query = env.command matches Ok(CommandView::Status) || env.command matches Ok(
                CommandView::History,
            );
            let p = out.persist->0;
            &&& out.persist is Some <==> out.answer is Ok && !query
            &&& out.persist is Some ==> {
                &&& p.scene == s.scene
                &&& p.canned_id == s.canned_id
                &&& p.flash_forever <==> s.flash is Some && s.flash->0.duration is None
                &&& s.last_command == Some(
                    LastCommandView { at: now, via: env.via, from: env.from },
                )
            }
            &&& out.persist is None ==> s.last_command == st.last_command
            &&& query ==> out.entry is None && s == st
        }),
{
}

/// A message that flashes without end still does after a restart, from the start of a
/// phase; one that flashes for a while does not.
#[verifier::spinoff_prover]
pub proof fn law_endless_flash_survives_a_restart(
    st: StateView,
    cfg: Config,
    env: EnvelopeView,
    flash: Flash,
    now: Timestamp,
    clock: Duration,
    lines: Seq<Option<EntryView>>,
    release: Release,
    boot: Duration,
    look: Timestamp,
    at: Duration,
)
    requires
        env.command is Ok,
        flashes(cfg, env.command->Ok_0, flash),
        at.nanos >= boot.nanos,
    ensures
        ({
            let (s, out) = state::handled(st, cfg, env, now, clock);
            let reborn = state::booted(cfg, out.persist, lines, boot, release);
            let seen = state::refreshed(reborn, cfg, look, at).0;
            &&& out.persist is Some
            &&& reborn.scene == s.scene
            &&& reborn.canned_id == s.canned_id
            &&& shows(
                seen.pushed->0,
                s.scene.bg,
                s.scene.fg,
                flash is Forever && (at.nanos - boot.nanos) % 1_000_000_000 < 500_000_000,
            )
        }),
{
    let t = at.nanos - boot.nanos;
    assert((t / 1_000_000) / 500 == t / 500_000_000);
    assert(t / 500_000_000 % 2 == 0 <==> t % 1_000_000_000 < 500_000_000);
}

/// The appliance starts with what was saved, or with the boot message in its own colours
/// or the default ones, or, where the configuration names none, with a black screen; with
/// nothing sent to the screen and no command yet; up since then; and with the last 200
/// entries of its log that read.
#[verifier::spinoff_prover]
pub proof fn law_the_appliance_starts_as_it_stopped(
    cfg: Config,
    saved: Option<PersistedView>,
    lines: Seq<Option<EntryView>>,
    clock: Duration,
    release: Release,
)
    ensures
        ({
            let s = state::booted(cfg, saved, lines, clock, release);
            let id = cfg.defaults.boot_scene@;
            let m = cfg.canned@[id];
            let kept = history::entries_in(lines);
            &&& saved is Some ==> s.scene == saved->0.scene && s.canned_id == saved->0.canned_id
            &&& saved is Some && saved->0.flash_forever ==> s.flash is Some
                && s.flash->0.duration is None && s.flash->0.started == clock
            &&& saved is None || !saved->0.flash_forever ==> s.flash is None
            &&& saved is None ==> s.canned_id == Some(id)
            &&& saved is None && cfg.canned@.contains_key(id) ==> {
                &&& s.scene.content == (ContentView::Text { text: m.text })
                &&& m.bg is Some ==> s.scene.bg == m.bg->0
                &&& m.bg is None ==> s.scene.bg == cfg.defaults.bg
                &&& m.fg is Some ==> s.scene.fg == m.fg->0
                &&& m.fg is None ==> s.scene.fg == cfg.defaults.fg
            }
            &&& saved is None && !cfg.canned@.contains_key(id) ==> {
                &&& s.scene.bg == (Rgb { r: 0, g: 0, b: 0 })
                &&& s.scene.fg == cfg.defaults.fg
                &&& s.scene.content is Text && s.scene.content->text.len() == 0
            }
            &&& s.last_command is None
            &&& s.pushed is None
            &&& s.started == clock
            &&& s.appends == 0
            &&& s.release == release
            &&& s.history.len() == (if kept.len() < 200 {
                kept.len()
            } else {
                200
            })
            &&& forall|i: int|
                0 <= i < s.history.len() ==> #[trigger] s.history[i] == kept[kept.len()
                    - s.history.len() + i]
        }),
{
}

/// The entries of a log are those of its lines that read, in order: those of its first
/// part and then those of the rest, one for a line that reads and none for one that does
/// not.
#[verifier::spinoff_prover]
pub proof fn law_log_reads_line_by_line(
    a: Seq<Option<EntryView>>,
    b: Seq<Option<EntryView>>,
    e: EntryView,
)
    ensures
        history::entries_in(a + b) == history::entries_in(a) + history::entries_in(b),
        history::entries_in(seq![Some(e)]) == seq![e],
        history::entries_in(seq![None::<EntryView>]) == Seq::<EntryView>::empty(),
        history::entries_in(Seq::<Option<EntryView>>::empty()) == Seq::<EntryView>::empty(),
    decreases b.len(),
{
    let none = Seq::<Option<EntryView>>::empty();
    assert(seq![Some(e)].drop_last() =~= none);
    assert(seq![None::<EntryView>].drop_last() =~= none);
    assert(history::entries_in(none) =~= Seq::<EntryView>::empty());
    assert(history::entries_in(seq![Some(e)]) =~= seq![e]);
    if b.len() > 0 {
        law_log_reads_line_by_line(a, b.drop_last(), e);
        assert((a + b).drop_last() =~= a + b.drop_last());
        assert((a + b).last() == b.last());
        assert(history::entries_in(a + b) =~= history::entries_in(a) + history::entries_in(b));
    } else {
        assert(a + b =~= a);
        assert(history::entries_in(a) + history::entries_in(b) =~= history::entries_in(a));
    }
}

/// The log grows by an entry at a time and is cut back to the last 200 at every 2,000th,
/// so that it never holds 2,200.
#[verifier::spinoff_prover]
pub proof fn law_log_stays_short(log: history::LogView, e: EntryView)
    requires
        0 <= log.appends < 2_000,
        log.lines.len() <= 200 + log.appends,
    ensures
        ({
            let next = history::logged(log, e);
            &&& next.lines.len() < 2_200
            &&& log.appends < 1_999 ==> next.lines == log.lines.push(e) && next.appends
                == log.appends + 1
            &&& log.appends == 1_999 ==> next.appends == 0 && next.lines.len() <= 200
            &&& next.lines.len() > 0 && next.lines[next.lines.len() - 1] == e
            &&& 0 <= next.appends < 2_000
            &&& next.lines.len() <= 200 + next.appends
        }),
{
}

/// What a client is told of an error names what was wrong, and says of each kind of error
/// something else.
#[verifier::spinoff_prover]
pub proof fn law_complaints_name_what_was_wrong(
    a: Seq<char>,
    b: Seq<char>,
)
    ensures
        is_made_of(command::complaint(CommandErrorView::UnknownAddress(a)), "unknown address "@, a),
        is_made_of(
            command::complaint(CommandErrorView::WrongArgs { addr: a, expected: b }),
            a + ": expected args "@,
            b,
        ),
        command::complaint(CommandErrorView::BadColour(a)) == a,
        command::complaint(CommandErrorView::BadFlash(a)) == a,
        is_made_of(command::complaint(CommandErrorView::BadJson(a)), "invalid JSON: "@, a),
        is_made_of(
            command::complaint(CommandErrorView::UnknownCanned(a)),
            "unknown canned id "@,
            text::debug_quoted(a),
        ),
        is_made_of(
            command::complaint(CommandErrorView::BadTimestamp(a)),
            "bad timestamp "@ + text::debug_quoted(a),
            ": expected ISO 8601, e.g. 2026-09-08T19:30:00Z"@,
        ),
        is_made_of(
            command::complaint(CommandErrorView::QueryNotSupported(a)),
            a,
            " is not available over OSC"@,
        ),
        command::complaint(CommandErrorView::LineTooLong) == "line exceeds 64 KiB"@,
        command::complaint(CommandErrorView::InvalidUtf8) == "invalid UTF-8"@,
        command::complaint(CommandErrorView::ShuttingDown) == "shutting down"@,
        is_made_of(
            scene::bad_colour(a),
            "bad colour "@ + text::debug_quoted(a),
            ": expected rrggbb"@,
        ),
{
}

/// A client that reads the JSON reply to a refused command reads the complaint; an
/// accepted one is told so, and a history or a status is what it asked for.
#[verifier::spinoff_prover]
pub proof fn law_json_reply_tells_the_answer(e: CommandErrorView, r: ReplyView, body: Seq<char>)
    ensures
        ({
            let bad = net::answer_json(Err(e), None);
            let head = "{\"ok\":false,\"error\":"@;
            let quoted = bad.subrange(head.len() as int, bad.len() - 1);
            &&& bad.len() > head.len()
            &&& bad.take(head.len() as int) == head
            &&& bad[bad.len() - 1] == '}'
            &&& net::json_text(quoted) == Some(command::complaint(e))
            &&& net::answer_json(Err(e), Some(body)) == bad
        }),
        net::answer_json(Ok(ReplyView::Done), None) == "{\"ok\":true}"@,
        net::answer_json(Ok(ReplyView::Done), Some(body)) == "{\"ok\":true}"@,
        r is Status ==> net::answer_json(Ok(r), Some(body)) == body && net::answer_json(Ok(r), None)
            == "{\"ok\":false,\"error\":\"status serialisation failed\"}"@,
        r is History ==> net::answer_json(Ok(r), None)
            == "{\"ok\":false,\"error\":\"history serialisation failed\"}"@,
        r is History ==> is_made_of(
            net::answer_json(Ok(r), Some(body)),
            "{\"ok\":true,\"history\":"@ + body,
            "}"@,
        ),
{
    let head = "{\"ok\":false,\"error\":"@;
    let bad = net::answer_json(Err(e), None);
    let q = net::json_string(command::complaint(e));
    reveal_strlit("}");
    assert(bad =~= head + q + "}"@);
    assert(bad.subrange(head.len() as int, bad.len() - 1) =~= q);
    assert(bad.take(head.len() as int) =~= head);
    net::law_json_string_reads_back(command::complaint(e));
}

/// Over HTTP an accepted request is 200; one that is refused is 400 if it was a command
/// and 500 if it was a query.
#[verifier::spinoff_prover]
pub proof fn law_http_tells_the_answer()
    ensures
        net::http_status(true, true) == 200,
        net::http_status(true, false) == 200,
        net::http_status(false, false) == 400,
        net::http_status(false, true) == 500,
{
}

/// Over OSC an accepted message is answered with `/placard/ok` alone, a refused one with
/// `/placard/error` and the complaint.
#[verifier::spinoff_prover]
pub proof fn law_osc_reply_tells_the_answer(e: CommandErrorView)
    ensures
        osc::reply_message(None) == ("/placard/ok"@, None::<Seq<char>>),
        osc::reply_message(Some(e)) == ("/placard/error"@, Some(command::complaint(e))),
{
}

/// Whether every character of `s` is white space.
pub open spec fn is_blank(s: Seq<char>) -> bool {
    forall|i: int| 0 <= i < s.len() ==> text::is_space(#[trigger] s[i])
}

/// Trimming takes white space off either end and nothing else: what is left starts and
/// ends with something else, or is nothing at all.
#[verifier::spinoff_prover]
pub proof fn law_trimming_takes_white_space_off(s: Seq<char>)
    ensures
        ({
            let t = text::trimmed(s);
            &&& exists|a: int, b: int|
                0 <= a <= b <= s.len() && #[trigger] s.subrange(a, b) == t && is_blank(s.take(a))
                    && is_blank(s.skip(b))
            &&& t.len() > 0 ==> !text::is_space(t[0]) && !text::is_space(t[t.len() - 1])
            &&& t.len() == 0 <==> is_blank(s)
        }),
{
    lemma_trim_front(s);
    let f = text::trim_front(s);
    lemma_trim_back(f);
    let t = text::trim_back(f);
    let a = s.len() - f.len();
    let b = a + t.len();
    assert(s.subrange(a, b) =~= t) by {
        assert(s.skip(a) == f);
        assert(f.take(t.len() as int) == t);
    }
    assert(is_blank(s.skip(b))) by {
        assert(s.skip(b) =~= f.skip(t.len() as int));
    }
    if t.len() == 0 {
        assert(f.skip(0) =~= f);
        assert forall|i: int| 0 <= i < s.len() implies text::is_space(#[trigger] s[i]) by {
            if i < a {
                assert(s.take(a)[i] == s[i]);
            } else {
                assert(f[i - a] == s[i]);
            }
        }
    } else {
        assert(t[0] == f[0]);
        assert(s[a] == t[0]);
    }
}

#[verifier::spinoff_prover]
proof fn lemma_trim_front(s: Seq<char>)
    ensures
        ({
            let f = text::trim_front(s);
            &&& f.len() <= s.len()
            &&& s.skip(s.len() - f.len()) == f
            &&& is_blank(s.take(s.len() - f.len()))
            &&& f.len() > 0 ==> !text::is_space(f[0])
        }),
    decreases s.len(),
{
    if s.len() > 0 && text::is_space(s[0]) {
        let r = s.skip(1);
        lemma_trim_front(r);
        let f = text::trim_front(s);
        assert(s.skip(s.len() - f.len()) =~= r.skip(r.len() - f.len()));
        assert forall|i: int| 0 <= i < s.len() - f.len() implies text::is_space(
            #[trigger] s.take(s.len() - f.len())[i],
        ) by {
            if i > 0 {
                assert(r.take(r.len() - f.len())[i - 1] == s[i]);
            }
        }
    } else {
        assert(s.skip(0) =~= s);
    }
}

#[verifier::spinoff_prover]
proof fn lemma_trim_back(s: Seq<char>)
    ensures
        ({
            let t = text::trim_back(s);
            &&& t.len() <= s.len()
            &&& s.take(t.len() as int) == t
            &&& is_blank(s.skip(t.len() as int))
            &&& t.len() > 0 ==> !text::is_space(t[t.len() - 1])
        }),
    decreases s.len(),
{
    if s.len() > 0 && text::is_space(s.last()) {
        let r = s.drop_last();
        lemma_trim_back(r);
        let t = text::trim_back(s);
        assert(s.take(t.len() as int) =~= r.take(t.len() as int));
        assert forall|i: int| 0 <= i < s.len() - t.len() implies text::is_space(
            #[trigger] s.skip(t.len() as int)[i],
        ) by {
            if i < r.len() - t.len() {
                assert(r.skip(t.len() as int)[i] == s.skip(t.len() as int)[i]);
            }
        }
    } else {
        assert(s.take(s.len() as int) =~= s);
    }
}

/// A line of text over TCP is the command in it, without the white space around it, and
/// nothing where there is nothing else, whether it ends in a newline, in a carriage
/// return and a newline, or with the connection.
#[verifier::spinoff_prover]
pub proof fn law_line_is_its_text(s: Seq<char>)
    requires
        encode_utf8(s).len() <= 65_536,
        encode_utf8(s).len() > 0 ==> encode_utf8(s).last() != 0x0a && encode_utf8(s).last() != 0x0d,
    ensures
        ({
            let bytes = encode_utf8(s);
            let v = net::line_verdict(bytes);
            &&& net::line_verdict(bytes.push(0x0a)) == v
            &&& net::line_verdict(bytes.push(0x0d).push(0x0a)) == v
            &&& is_blank(s) ==> v is Blank
            &&& !is_blank(s) ==> v is Command && v->Command_0 == text::trimmed(s)
        }),
{
    let bytes = encode_utf8(s);
    assert(bytes.push(0x0a).drop_last() =~= bytes);
    assert(bytes.push(0x0d).push(0x0a).drop_last() =~= bytes.push(0x0d));
    assert(bytes.push(0x0d).drop_last() =~= bytes);
    encode_utf8_valid_utf8(s);
    encode_utf8_decode_utf8(s);
    law_trimming_takes_white_space_off(s);
}

/// A line of more than 65,536 bytes before its end is refused as too long, one that is not
/// UTF-8 as that.
#[verifier::spinoff_prover]
pub proof fn law_bad_lines_are_refused(bytes: Seq<u8>)
    requires
        bytes.len() > 0 ==> bytes.last() != 0x0a && bytes.last() != 0x0d,
        bytes.len() > 65_536 || !valid_utf8(bytes),
    ensures
        ({
            let v = net::line_verdict(bytes);
            &&& v is Reject
            &&& bytes.len() > 65_536 ==> v->Reject_0 is LineTooLong
            &&& bytes.len() <= 65_536 ==> v->Reject_0 is InvalidUtf8
            &&& v->Reject_1 == net::lossy_text(bytes)
            &&& net::line_verdict(bytes.push(0x0a)) == v
            &&& net::line_verdict(bytes.push(0x0d).push(0x0a)) == v
        }),
{
    assert(bytes.push(0x0a).drop_last() =~= bytes);
    assert(bytes.push(0x0d).push(0x0a).drop_last() =~= bytes.push(0x0d));
    assert(bytes.push(0x0d).drop_last() =~= bytes);
}

/// `parts` with `sep` between each two of them.
pub open spec fn joined(parts: Seq<Seq<char>>, sep: char) -> Seq<char>
    decreases parts.len(),
{
    if parts.len() == 0 {
        Seq::empty()
    } else if parts.len() == 1 {
        parts[0]
    } else {
        joined(parts.drop_last(), sep).push(sep) + parts.last()
    }
}

/// The parts of a text, joined, are the text, and none of them holds what separates them.
#[verifier::spinoff_prover]
pub proof fn law_parts_join_to_the_text(s: Seq<char>, sep: char)
    ensures
        text::pieces(s, sep).len() > 0,
        joined(text::pieces(s, sep), sep) == s,
        forall|i: int, j: int|
            0 <= i < text::pieces(s, sep).len() && 0 <= j < text::pieces(s, sep)[i].len()
                ==> #[trigger] text::pieces(s, sep)[i][j] != sep,
    decreases s.len(),
{
    let p = text::pieces(s, sep);
    text::lemma_pieces_nonempty(s, sep);
    if s.len() == 0 {
        assert(joined(p, sep) =~= s);
    } else {
        let t = s.drop_last();
        let q = text::pieces(t, sep);
        text::lemma_pieces_nonempty(t, sep);
        law_parts_join_to_the_text(t, sep);
        if s.last() == sep {
            assert(p.drop_last() =~= q);
            assert(joined(p, sep) =~= s);
        } else {
            assert(p.drop_last() =~= q.drop_last());
            assert(p.last() == q.last().push(s.last()));
            if p.len() == 1 {
                assert(q[0] == q.last());
                assert(joined(p, sep) =~= s);
            } else {
                assert(joined(p, sep) =~= joined(q, sep).push(s.last()));
                assert(joined(p, sep) =~= s);
            }
        }
        assert forall|i: int, j: int| 0 <= i < p.len() && 0 <= j < p[i].len() implies
            #[trigger] p[i][j] != sep by {
            if i < p.len() - 1 {
                assert(p[i] == q[i]);
            } else if s.last() != sep {
                if j < q.last().len() {
                    assert(q[q.len() - 1][j] == p[i][j]);
                }
            }
        }
    }
}

/// A text has a line for every line break and one more for what follows the last, if
/// anything does; each is what stands between two breaks, but for a carriage return
/// before a break.
#[verifier::spinoff_prover]
pub proof fn law_lines_are_what_stands_between_breaks(s: Seq<char>)
    ensures
        ({
            let p = text::pieces(s, '\n');
            let l = text::text_lines(s);
            &&& l.len() == (if p[p.len() - 1].len() > 0 {
                p.len()
            } else {
                (p.len() - 1) as nat
            })
            &&& forall|i: int|
                0 <= i < l.len() && i < p.len() - 1 ==> {
                    let ends = p[i].len() > 0 && p[i][p[i].len() - 1] == '\r';
                    &&& ends ==> p[i] == (#[trigger] l[i]).push('\r')
                    &&& !ends ==> p[i] == l[i]
                }
            &&& l.len() == p.len() ==> l[l.len() - 1] == p[p.len() - 1]
        }),
{
    let p = text::pieces(s, '\n');
    let l = text::text_lines(s);
    text::lemma_pieces_nonempty(s, '\n');
    assert forall|i: int| 0 <= i < l.len() && i < p.len() - 1 implies ({
        let ends = p[i].len() > 0 && p[i][p[i].len() - 1] == '\r';
        &&& ends ==> p[i] == (#[trigger] l[i]).push('\r')
        &&& !ends ==> p[i] == l[i]
    }) by {
        assert(l[i] == text::without_cr(p[i]));
        if p[i].len() > 0 && p[i].last() == '\r' {
            assert(p[i] =~= l[i].push('\r'));
        }
    }
}

/// A number shows as the digits that read as it, without a zero in front, and with a
/// minus if it is negative.
#[verifier::spinoff_prover]
pub proof fn law_numbers_read_back(n: nat)
    ensures
        read_number(text::decimal(n)) == Some(n as int),
        n > 0 ==> text::decimal(n)[0] != '0',
        n == 0 ==> text::decimal(n).len() == 1,
        text::signed_decimal(n as int) == text::decimal(n),
        n > 0 ==> text::signed_decimal(-(n as int)) == seq!['-'] + text::decimal(n),
        n < 100 ==> read_number(text::two_digits(n as int)) == Some(n as int)
            && text::two_digits(n as int).len() == 2,
    decreases n,
{
    lemma_decimal_reads_back(n);
    if n < 100 {
        lemma_two_digits_read_back(n as int);
    }
    if n >= 10 {
        law_numbers_read_back(n / 10);
        assert(text::decimal(n)[0] == text::decimal(n / 10)[0]);
    }
}

/// Digits are read as the number they spell, with or without a plus in front, if it is no
/// more than fits; anything else is not read.
#[verifier::spinoff_prover]
pub proof fn law_digits_are_read_as_numbers(s: Seq<char>)
    ensures
        s.len() > 0 && s[0] != '+' ==> ({
            let n = read_number(s);
            &&& n is Some && n->0 <= 0xffff_ffff ==> text::u32_value(s) is Some && text::u32_value(
                s,
            )->0 == n->0
            &&& n is None || n->0 > 0xffff_ffff ==> text::u32_value(s) is None
            &&& text::u32_value(seq!['+'] + s) == text::u32_value(s)
        }),
        text::u32_value(Seq::empty()) is None,
        text::u32_value(seq!['+']) is None,
{
    if s.len() > 0 && s[0] != '+' {
        lemma_digits_read_alike(s);
        assert((seq!['+'] + s).skip(1) =~= s);
    }
    assert(seq!['+'].skip(1) =~= Seq::<char>::empty());
}

#[verifier::spinoff_prover]
proof fn lemma_digits_read_alike(s: Seq<char>)
    ensures
        read_number(s) is Some <==> text::is_digits(s),
        read_number(s) is Some ==> read_number(s)->0 == text::digits_value(s),
    decreases s.len(),
{
    if s.len() > 1 {
        let t = s.drop_last();
        lemma_digits_read_alike(t);
        if text::is_digits(s) {
            assert(s[s.len() - 1] == s.last());
            assert forall|i: int| 0 <= i < t.len() implies text::is_digit(#[trigger] t[i]) by {
                assert(t[i] == s[i]);
            }
        }
        if read_number(s) is Some {
            assert forall|i: int| 0 <= i < s.len() implies text::is_digit(#[trigger] s[i]) by {
                if i < t.len() {
                    assert(t[i] == s[i]);
                }
            }
        }
    } else if s.len() == 1 {
        assert(s[0] == s.last());
        assert(s.drop_last() =~= Seq::<char>::empty());
        assert(text::digits_value(s.drop_last()) == 0);
    }
}

/// A font description that ends in a number of points is the family before it at up to
/// that many points, four pixels to three of them; one that does not is all family, at up
/// to 160 pixels.
#[verifier::spinoff_prover]
pub proof fn law_font_names_family_and_size(family: Seq<char>, points: nat, plain: Seq<char>)
    requires
        points <= 0xffff_ffff,
        forall|i: int| 0 <= i < plain.len() ==> plain[i] != ' ',
        read_number(plain) is None,
        plain.len() > 0 ==> plain[0] != '+',
    ensures
        ({
            let sized = family + seq![' '] + text::decimal(points);
            let unsized_ = family + seq![' '] + plain;
            &&& config::family_of(sized) == family
            &&& points < 0x4000_0000 ==> config::max_px_of(sized) == points * 4 / 3
            &&& 0x4000_0000 <= points <= 0xffff_ffff ==> config::max_px_of(sized) == 0x5555_5555
            &&& config::family_of(unsized_) == unsized_
            &&& config::max_px_of(unsized_) == 160
            &&& config::family_of(plain) == plain
            &&& config::max_px_of(plain) == 160
        }),
{
    let d = text::decimal(points);
    lemma_decimal_reads_back(points);
    lemma_digits_read_alike(d);
    lemma_digits_read_alike(plain);
    text::lemma_decimal_is_digits(points);
    lemma_last_space(family, d);
    lemma_last_space(family, plain);
    let sized = family + seq![' '] + d;
    let other = family + seq![' '] + plain;
    assert(sized.skip(family.len() as int + 1) =~= d);
    assert(sized.take(family.len() as int) =~= family);
    assert(other.skip(family.len() as int + 1) =~= plain);
    assert(text::without_plus(d) == d) by {
        assert(text::is_digit(d[0]));
    }
    lemma_no_space(plain);
}

#[verifier::spinoff_prover]
proof fn lemma_no_space(s: Seq<char>)
    requires
        forall|i: int| 0 <= i < s.len() ==> s[i] != ' ',
    ensures
        config::last_space(s) == -1,
    decreases s.len(),
{
    if s.len() > 0 {
        assert(s[s.len() - 1] == s.last());
        lemma_no_space(s.drop_last());
    }
}

#[verifier::spinoff_prover]
proof fn lemma_last_space(front: Seq<char>, end: Seq<char>)
    requires
        forall|i: int| 0 <= i < end.len() ==> end[i] != ' ',
    ensures
        config::last_space(front + seq![' '] + end) == front.len(),
    decreases end.len(),
{
    let s = front + seq![' '] + end;
    if end.len() > 0 {
        assert(end[end.len() - 1] == end.last());
        lemma_last_space(front, end.drop_last());
        assert(s.drop_last() =~= front + seq![' '] + end.drop_last());
        assert(s.last() == end.last());
    } else {
        assert(s.last() == ' ');
    }
}

/// A font is asked for by its family and its size in pixels.
#[verifier::spinoff_prover]
pub proof fn law_font_is_asked_for_in_pixels(family: Seq<char>, px: nat)
    ensures
        ({
            let desc = config::sized_font(family, px as int);
            let n = desc.len() as int;
            &&& n > family.len() + 3
            &&& desc.take(family.len() as int) == family
            &&& desc[family.len() as int] == ' '
            &&& desc[n - 2] == 'p' && desc[n - 1] == 'x'
            &&& read_number(desc.subrange(family.len() as int + 1, n - 2)) == Some(px as int)
        }),
{
    reveal_strlit(" ");
    reveal_strlit("px");
    lemma_decimal_reads_back(px);
    let desc = config::sized_font(family, px as int);
    let d = text::decimal(px);
    assert(desc.take(family.len() as int) =~= family);
    assert(desc.subrange(family.len() as int + 1, desc.len() - 2) =~= d);
}

/// The clock sits in the corner that the configuration names.
#[verifier::spinoff_prover]
pub proof fn law_clock_sits_in_its_corner()
    ensures
        config::aligned(ClockPosition::TopLeft) == ("left"@, "top"@),
        config::aligned(ClockPosition::TopRight) == ("right"@, "top"@),
        config::aligned(ClockPosition::BottomLeft) == ("left"@, "bottom"@),
        config::aligned(ClockPosition::BottomRight) == ("right"@, "bottom"@),
{
}

/// A configuration passes exactly if the frame, its rate and its text size are within
/// bounds, the padding leaves room, and the boot message exists; what is said of one that
/// does not is the first of these that fails.
#[verifier::spinoff_prover]
pub proof fn law_configuration_passes_within_bounds(c: Config)
    ensures
        ({
            let d = c.display;
            let size = 64 <= d.width <= 7680 && 64 <= d.height <= 4320;
            let rate = 1 <= d.fps <= 240;
            let room = d.width - 2 * d.padding_x > 0 && d.height - 2 * d.padding_y > 0;
            let font = 8 <= config::max_px_of(d.font@) <= 2000;
            let boot = c.canned@.contains_key(c.defaults.boot_scene@);
            let f = config::config_fault(c);
            &&& f is None <==> size && rate && room && font && boot
            &&& !size ==> f == Some(
                ConfigErrorView::Size { width: d.width, height: d.height },
            )
            &&& size && !rate ==> f == Some(ConfigErrorView::Fps(d.fps))
            &&& size && rate && !room ==> f == Some(
                ConfigErrorView::Padding {
                    padding_x: d.padding_x,
                    padding_y: d.padding_y,
                    width: d.width,
                    height: d.height,
                },
            )
            &&& size && rate && room && !font ==> f is Some && f->0 is Font && f->0->font == d.font@
                && f->0->px == config::max_px_of(d.font@)
            &&& size && rate && room && font && !boot ==> f == Some(
                ConfigErrorView::BootScene(c.defaults.boot_scene@),
            )
        }),
{
    assert(0 <= config::max_px_of(c.display.font@) <= u32::MAX);
}

/// Between two instants lie the seconds and nanoseconds that they differ by, whichever
/// comes first.
#[verifier::spinoff_prover]
pub proof fn law_spans_are_differences(a: Timestamp, b: Timestamp)
    requires
        a.nanos() < 1_000_000_000,
        b.nanos() < 1_000_000_000,
    ensures
        time::nanos_between(a, b) == (a.secs() - b.secs()) * 1_000_000_000 + a.nanos() - b.nanos(),
{
}

/// However two instants lie, leap seconds and all, one is as far from the other as the
/// other from it; and a leap second counts in full for what is later the same day.
#[verifier::spinoff_prover]
pub proof fn law_spans_are_symmetric(a: Timestamp, b: Timestamp)
    requires
        time::names_instant(a.secs(), a.nanos()),
        time::names_instant(b.secs(), b.nanos()),
    ensures
        time::nanos_between(a, b) == -time::nanos_between(b, a),
        a.nanos() >= 1_000_000_000 && b.nanos() < 1_000_000_000 && b.secs() > a.secs() && b.secs()
            / 86_400 == a.secs() / 86_400 ==> time::nanos_between(b, a) == (b.secs() - a.secs())
            * 1_000_000_000 + b.nanos() - (a.nanos() - 1_000_000_000),
{
}

/// Going on from a leap second to a later time of day, of the same day or another, that
/// second counts in full; going on from one to an earlier time of day, or to the same, it
/// does not.
#[verifier::spinoff_prover]
pub proof fn law_leap_seconds_count_by_the_time_of_day(a: Timestamp, b: Timestamp)
    requires
        a.nanos() >= 1_000_000_000,
    ensures
        ({
            let apart = (b.secs() - a.secs()) * 1_000_000_000 + b.nanos() - a.nanos();
            &&& b.secs() % 86_400 > a.secs() % 86_400 ==> time::nanos_between(b, a) == apart
                + 1_000_000_000
            &&& b.secs() % 86_400 == a.secs() % 86_400 ==> time::nanos_between(b, a) == apart
            &&& b.secs() % 86_400 < a.secs() % 86_400 && b.nanos() < 1_000_000_000
                ==> time::nanos_between(b, a) == apart
        }),
{
}

/// What is displayed of a text is all of it up to 4,000 characters and fewer than 40 line
/// breaks; of a longer one it is as much as stays within that, and an ellipsis.
#[verifier::spinoff_prover]
pub proof fn law_display_shows_as_much_as_it_can(t: Seq<char>)
    ensures
        ({
            let u = layout::clamped(t);
            let k = u.len() - 1;
            &&& t.len() <= 4_000 && count(t, '\n') < 40 ==> u == t
            &&& t.len() > 4_000 || count(t, '\n') >= 40 ==> {
                &&& 0 <= k < t.len()
                &&& u == t.take(k).push('…')
                &&& k <= 4_000 && count(t.take(k), '\n') < 40
                &&& k == 4_000 || count(t.take(k + 1), '\n') >= 40
            }
        }),
{
    lemma_newlines_are_counted(t);
    if !(t.len() <= 4_000 && count(t, '\n') < 40) {
        lemma_longest_is_maximal(t);
        let u = layout::clamped(t);
        let k = u.len() - 1;
        assert(u =~= t.take(k).push('…'));
        lemma_newlines_are_counted(t.take(k));
        lemma_newlines_are_counted(t.take(k + 1));
    }
}

/// How often `c` stands in `s`.
pub open spec fn count(s: Seq<char>, c: char) -> int
    decreases s.len(),
{
    if s.len() == 0 {
        0
    } else if s[0] == c {
        1 + count(s.skip(1), c)
    } else {
        count(s.skip(1), c)
    }
}

#[verifier::spinoff_prover]
pub proof fn lemma_count_last(s: Seq<char>, c: char)
    requires
        s.len() > 0,
    ensures
        count(s, c) == count(s.drop_last(), c) + (if s.last() == c {
            1int
        } else {
            0int
        }),
        count(s.drop_last(), c) >= 0,
    decreases s.len(),
{
    if s.len() > 1 {
        lemma_count_last(s.skip(1), c);
        assert(s.skip(1).drop_last() =~= s.drop_last().skip(1));
        assert(s.skip(1).last() == s.last());
        assert(s.drop_last()[0] == s[0]);
    } else {
        assert(s.skip(1) =~= Seq::<char>::empty());
        assert(s.drop_last() =~= Seq::<char>::empty());
        assert(s[0] == s.last());
    }
}

#[verifier::spinoff_prover]
pub proof fn lemma_newlines_are_counted(s: Seq<char>)
    ensures
        layout::newlines(s) == count(s, '\n'),
    decreases s.len(),
{
    if s.len() > 0 {
        lemma_newlines_are_counted(s.drop_last());
        lemma_count_last(s, '\n');
    }
}

#[verifier::spinoff_prover]
proof fn lemma_longest_is_maximal(t: Seq<char>)
    requires
        !layout::displayable(t),
    ensures
        ({
            let u = layout::longest_displayable(t);
            let k = u.len() as int;
            &&& k < t.len()
            &&& u == t.take(k)
            &&& layout::displayable(t.take(k))
            &&& !layout::displayable(t.take(k + 1))
        }),
    decreases t.len(),
{
    let r = t.drop_last();
    let u = layout::longest_displayable(t);
    if t.len() > 0 {
        if layout::displayable(r) {
            assert(layout::longest_displayable(r) == r);
            assert(t.take(r.len() as int) =~= r);
            assert(t.take(r.len() as int + 1) =~= t);
        } else {
            lemma_longest_is_maximal(r);
            let k = u.len() as int;
            assert(t.take(k) =~= r.take(k));
            assert(t.take(k + 1) =~= r.take(k + 1));
        }
    }
}

/// A message is listed by its address and its arguments in order, each behind a space and
/// what it is: a quoted text, a whole number, a number, a yes or no.
#[verifier::spinoff_prover]
pub proof fn law_messages_are_listed_argument_by_argument(
    addr: Seq<char>,
    args: Seq<ArgView>,
    a: ArgView,
)
    ensures
        osc::listed(MessageView { addr, args: Seq::empty() }) == addr,
        is_made_of(
            osc::listed(MessageView { addr, args: args.push(a) }),
            osc::listed(MessageView { addr, args }),
            osc::listed_arg(a),
        ),
        a matches ArgView::String(s) ==> is_made_of(osc::listed_arg(a), " s:"@, text::debug_quoted(s)),
        a matches ArgView::Int(n) ==> is_made_of(
            osc::listed_arg(a),
            " i:"@,
            text::signed_decimal(n as int),
        ),
        a matches ArgView::Float { shown, .. } ==> is_made_of(osc::listed_arg(a), " f:"@, shown),
        a matches ArgView::Bool(b) ==> osc::listed_arg(a) == (if b {
            " true"@
        } else {
            " false"@
        }),
        a matches ArgView::Long(n) ==> is_made_of(
            osc::listed_arg(a),
            " Long("@ + text::signed_decimal(n as int),
            ")"@,
        ),
        a matches ArgView::Double { shown, .. } ==> is_made_of(osc::listed_arg(a), " "@, shown),
        a matches ArgView::Other(shown) ==> is_made_of(osc::listed_arg(a), " "@, shown),
{
    assert(args.push(a).drop_last() =~= args);
    assert(osc::listed(MessageView { addr, args: Seq::empty() }) =~= addr);
    let whole = osc::listed(MessageView { addr, args: args.push(a) });
    assert(whole =~= osc::listed(MessageView { addr, args }) + osc::listed_arg(a));
}

/// A bundle is its packets, one after the other, however they are bundled; and a message
/// is itself.
#[verifier::spinoff_prover]
pub proof fn law_bundles_are_their_messages(
    m: MessageView,
    a: Seq<osc::PacketView>,
    b: Seq<osc::PacketView>,
    p: osc::PacketView,
)
    ensures
        osc::messages_in(osc::PacketView::Message(m)) == seq![m],
        osc::messages_in(osc::PacketView::Bundle(seq![p])) == osc::messages_in(p),
        osc::messages_in(osc::PacketView::Bundle(Seq::empty())) == Seq::<MessageView>::empty(),
        osc::messages_in(osc::PacketView::Bundle(a + b)) == osc::messages_in(
            osc::PacketView::Bundle(a),
        ) + osc::messages_in(osc::PacketView::Bundle(b)),
{
    assert(osc::messages_in_all(seq![p], 0) =~= Seq::<MessageView>::empty());
    assert(osc::messages_in_all(seq![p], 1) =~= osc::messages_in(p));
    lemma_bundle_front(a, b, a.len() as int);
    lemma_bundle_back(a, b, b.len() as int);
}

#[verifier::spinoff_prover]
proof fn lemma_bundle_front(a: Seq<osc::PacketView>, b: Seq<osc::PacketView>, n: int)
    requires
        0 <= n <= a.len(),
    ensures
        osc::messages_in_all(a + b, n) == osc::messages_in_all(a, n),
    decreases n,
{
    if n > 0 {
        lemma_bundle_front(a, b, n - 1);
        assert((a + b)[n - 1] == a[n - 1]);
    }
}

#[verifier::spinoff_prover]
proof fn lemma_bundle_back(a: Seq<osc::PacketView>, b: Seq<osc::PacketView>, n: int)
    requires
        0 <= n <= b.len(),
    ensures
        osc::messages_in_all(a + b, a.len() + n) == osc::messages_in_all(a, a.len() as int)
            + osc::messages_in_all(b, n),
    decreases n,
{
    let all = osc::messages_in_all(a + b, a.len() + n);
    if n > 0 {
        lemma_bundle_back(a, b, n - 1);
        assert((a + b)[a.len() + n - 1] == b[n - 1]);
        assert(all =~= osc::messages_in_all(a, a.len() as int) + osc::messages_in_all(b, n));
    } else {
        lemma_bundle_front(a, b, a.len() as int);
        assert(all =~= osc::messages_in_all(a, a.len() as int) + osc::messages_in_all(b, n));
    }
}

/// Every message of a packet comes in as what it reads as, listed for the history, from
/// whoever sent it.
#[verifier::spinoff_prover]
pub proof fn law_every_message_comes_in(msgs: Seq<MessageView>, from: Seq<char>)
    ensures
        ({
            let all = net::packet_envelopes(msgs, from);
            &&& all.len() == msgs.len()
            &&& forall|i: int|
                0 <= i < msgs.len() ==> {
                    &&& (#[trigger] all[i]).command == command::osc_command(msgs[i])
                    &&& all[i].raw == osc::listed(msgs[i])
                    &&& all[i].via == "osc"@
                    &&& all[i].from == Some(from)
                }
        }),
{
}

/// The screen shows the text of the scene, as much as is displayed of it, up to the first
/// NUL, each character as itself.
#[verifier::spinoff_prover]
pub proof fn law_screen_shows_the_text(
    s: SceneView,
    now: Timestamp,
    c: Config,
    invert: bool,
    front: Seq<char>,
    rest: Seq<char>,
)
    requires
        s.content is Text,
        forall|i: int| 0 <= i < front.len() ==> front[i] != '\0',
        layout::clamped(s.content->text) == front || layout::clamped(s.content->text) == front
            + seq!['\0'] + rest,
    ensures
        markup::shown_text(render::derived(s, now, c, invert).text_markup) == Some(front),
{
    markup::law_escaped_text_shows_literally(layout::clamped(s.content->text));
    lemma_before_nul_is_front(front, rest);
}

#[verifier::spinoff_prover]
proof fn lemma_before_nul_is_front(front: Seq<char>, rest: Seq<char>)
    requires
        forall|i: int| 0 <= i < front.len() ==> front[i] != '\0',
    ensures
        markup::before_nul(front) == front,
        markup::before_nul(front + seq!['\0'] + rest) == front,
    decreases rest.len(),
{
    markup::law_escaped_text_shows_literally(front);
    let s = front + seq!['\0'] + rest;
    if rest.len() == 0 {
        assert(s.drop_last() =~= front);
        assert(s.last() == '\0');
    } else {
        lemma_before_nul_is_front(front, rest.drop_last());
        assert(s.drop_last() =~= front + seq!['\0'] + rest.drop_last());
    }
}

/// The screen shows a countdown's digits, which read as what remains; under its label, if
/// it has one, as much as is displayed of it up to the first NUL, at three fifths of the
/// size.
#[verifier::spinoff_prover]
pub proof fn law_screen_shows_the_countdown(
    s: SceneView,
    now: Timestamp,
    c: Config,
    invert: bool,
    front: Seq<char>,
    rest: Seq<char>,
)
    requires
        s.content is Countdown,
        forall|i: int| 0 <= i < front.len() ==> front[i] != '\0',
        s.content->label is Some ==> layout::clamped(s.content->label->0) == front
            || layout::clamped(s.content->label->0) == front + seq!['\0'] + rest,
    ensures
        ({
            let m = render::derived(s, now, c, invert).text_markup;
            let remains = scene::secs_shown(s.content->target, now);
            match s.content->label {
                None => read_countdown(m) == Some(remains),
                Some(_) => exists|label: Seq<char>, digits: Seq<char>|
                    {
                        &&& m == "<span size=\"60%\">"@ + label + "</span>\n"@ + digits
                        &&& #[trigger] markup::shown_text(label) == Some(front)
                        &&& #[trigger] read_countdown(digits) == Some(remains)
                    },
            }
        }),
{
    let remains = scene::secs_shown(s.content->target, now);
    law_countdown_reads_back(remains);
    match s.content->label {
        None => {},
        Some(l) => {
            markup::law_escaped_text_shows_literally(layout::clamped(l));
            lemma_before_nul_is_front(front, rest);
            let label = markup::escaped(layout::clamped(l));
            let digits = scene::countdown_text(remains);
            let m = render::derived(s, now, c, invert).text_markup;
            assert(m == "<span size=\"60%\">"@ + label + "</span>\n"@ + digits);
            assert(markup::shown_text(label) == Some(front));
            assert(read_countdown(digits) == Some(remains));
        },
    }
}

/// The screen shows the time of day in the configured zone, whatever the scene.
#[verifier::spinoff_prover]
pub proof fn law_screen_shows_the_time(s: SceneView, now: Timestamp, c: Config, invert: bool)
    requires
        now.nanos() < 1_000_000_000,
    ensures
        ({
            let face = render::derived(s, now, c, invert).clock_text;
            let h = read_number(face.subrange(0, 2));
            let m = read_number(face.subrange(3, 5));
            let sec = read_number(face.subrange(6, 8));
            let ahead = time::zone_offset(c.clock.timezone.named(), now.secs());
            &&& face.len() == 8 && face[2] == ':' && face[5] == ':'
            &&& h is Some && m is Some && sec is Some
            &&& 0 <= h->0 < 24 && 0 <= m->0 < 60 && 0 <= sec->0 < 60
            &&& (now.secs() + ahead - (h->0 * 3600 + m->0 * 60 + sec->0)) % 86_400 == 0
        }),
{
    law_clock_reads_as_local_time(
        now,
        time::zone_offset(c.clock.timezone.named(), now.secs()),
    );
}

/// In a leap second the screen shows the second after the last of its minute.
#[verifier::spinoff_prover]
pub proof fn law_screen_shows_a_leap_second(
    s: SceneView,
    now: Timestamp,
    c: Config,
    invert: bool,
)
    requires
        now.nanos() >= 1_000_000_000,
    ensures
        ({
            let face = render::derived(s, now, c, invert).clock_text;
            let h = read_number(face.subrange(0, 2));
            let m = read_number(face.subrange(3, 5));
            let sec = read_number(face.subrange(6, 8));
            let ahead = time::zone_offset(c.clock.timezone.named(), now.secs());
            &&& face.len() == 8 && face[2] == ':' && face[5] == ':'
            &&& h is Some && m is Some && sec is Some
            &&& 0 <= h->0 < 24 && 0 <= m->0 < 60 && 1 <= sec->0 <= 60
            &&& (now.secs() + ahead - (h->0 * 3600 + m->0 * 60 + sec->0 - 1)) % 86_400 == 0
        }),
{
    law_leap_second_shows_as_one_more(
        now,
        time::zone_offset(c.clock.timezone.named(), now.secs()),
    );
}

/// White space is the tab, the four that break lines or pages after it, the space, and
/// what Unicode counts as either beyond ASCII.
#[verifier::spinoff_prover]
pub proof fn law_white_space(c: char)
    ensures
        c <= '\u{7f}' ==> (text::is_space(c) <==> c == '\t' || c == '\n' || c == '\u{b}' || c
            == '\u{c}' || c == '\r' || c == ' '),
        '\u{80}' <= c <= '\u{1fff}' ==> (text::is_space(c) <==> c == '\u{85}' || c == '\u{a0}' || c
            == '\u{1680}'),
        '\u{2000}' <= c ==> (text::is_space(c) <==> c <= '\u{200a}' || c == '\u{2028}' || c
            == '\u{2029}' || c == '\u{202f}' || c == '\u{205f}' || c == '\u{3000}'),
{
}

/// Every second there is names an instant, and nanoseconds of a second do; a leap second
/// follows the last of a minute and no other.
#[verifier::spinoff_prover]
pub proof fn law_instants_there_are(secs: int, nanos: int)
    ensures
        -8_334_601_228_800 <= secs <= 8_210_266_876_799 && 0 <= nanos < 1_000_000_000
            ==> time::names_instant(secs, nanos),
        secs < -8_334_601_228_800 || secs > 8_210_266_876_799 || nanos < 0 || nanos
            >= 2_000_000_000 ==> !time::names_instant(secs, nanos),
        -8_334_601_228_800 <= secs <= 8_210_266_876_799 && 1_000_000_000 <= nanos < 2_000_000_000
            ==> (time::names_instant(secs, nanos) <==> (secs + 1) % 60 == 0),
{
}

/// A flash that is refused says why: that it is no number, or which number is too long.
#[verifier::spinoff_prover]
pub proof fn law_refused_flash_says_why(s: SecondsView)
    ensures
        ({
            let r = scene::seconds_flash(s);
            r is Err ==> {
                ||| s.bits % 0x8000_0000_0000_0000 > 0x7ff0_0000_0000_0000 && r->Err_0
                    == "flash duration is not a number"@
                ||| s.bits <= 0x7ff0_0000_0000_0000 && is_made_of(
                    r->Err_0,
                    "flash duration "@ + s.text,
                    "s is over the 86400s maximum; use infinite for a flash with no end"@,
                )
            }
        }),
{
}

/// What is said of a configuration that does not pass gives the numbers and names in it.
#[verifier::spinoff_prover]
pub proof fn law_config_complaints_name_what_was_wrong(
    a: u32,
    b: u32,
    c: u32,
    d: u32,
    name: Seq<char>,
)
    ensures
        config::config_complaint(ConfigErrorView::Size { width: a, height: b }) == "display "@
            + text::decimal(a as nat) + "x"@ + text::decimal(b as nat)
            + " is outside 64x64..7680x4320"@,
        config::config_complaint(ConfigErrorView::Fps(a)) == "display.fps "@ + text::decimal(
            a as nat,
        ) + " is outside 1..240"@,
        config::config_complaint(
            ConfigErrorView::Padding { padding_x: a, padding_y: b, width: c, height: d },
        ) == "padding "@ + text::decimal(a as nat) + "x"@ + text::decimal(b as nat)
            + " leaves no room inside "@ + text::decimal(c as nat) + "x"@ + text::decimal(d as nat),
        config::config_complaint(ConfigErrorView::Font { font: name, px: a })
            == "display.font size "@ + text::debug_quoted(name) + " maps to "@ + text::decimal(
            a as nat,
        ) + " px, outside 8..2000"@,
        config::config_complaint(ConfigErrorView::BootScene(name)) == "defaults.boot_scene "@
            + text::debug_quoted(name) + " is not a canned message"@,
{
}

/// Whether `d` has no more than 53 significant bits.
pub open spec fn is_short(d: int) -> bool {
    exists|m: int, j: nat| 0 <= m <= 0x20_0000_0000_0000 && d == #[trigger] (m * pow2(j))
}

/// Rounding goes to the nearest number of 53 significant bits: to one of them, none of
/// which is nearer.
#[verifier::spinoff_prover]
pub proof fn law_rounding_goes_to_the_nearest(n: int, d: int)
    requires
        n >= 0,
        is_short(d),
    ensures
        is_short(double::rounded(n)),
        double::rounded(n) >= n && d >= n ==> double::rounded(n) <= d,
        double::rounded(n) <= n && d <= n ==> double::rounded(n) >= d,
        double::rounded(n) - n <= (if d >= n {
            d - n
        } else {
            n - d
        }),
        n - double::rounded(n) <= (if d >= n {
            d - n
        } else {
            n - d
        }),
{
    let (m, j) = choose|m: int, j: nat|
        0 <= m <= 0x20_0000_0000_0000 && d == #[trigger] (m * pow2(j));
    double::lemma_rounded_is_nearest(n, m, j);
    let k = double::excess(n as nat);
    let q = seconds::nearest(n as nat, pow2(k)) as int;
    double::lemma_rounded_count(n);
    assert(double::rounded(n) == q * pow2(k));
}

/// Halfway between two numbers of 53 significant bits, rounding goes to the one whose last
/// bit is clear.
#[verifier::spinoff_prover]
pub proof fn law_halves_go_to_the_even(m: int, j: nat)
    requires
        0x10_0000_0000_0000 <= m < 0x20_0000_0000_0000,
    ensures
        m % 2 == 0 ==> double::rounded((2 * m + 1) * pow2(j)) == (2 * m) * pow2(j),
        m % 2 == 1 ==> double::rounded((2 * m + 1) * pow2(j)) == (2 * m + 2) * pow2(j),
{
    let n = 2 * m + 1;
    double::lemma_rounded_scales(n, j);
    lemma2_to64();
    assert((n as nat) / 2 == m as nat && (n as nat) % 2 == 1);
    assert(double::excess(m as nat) == 0);
    assert(double::excess(n as nat) == 1);
    assert(pow2(1) == 2);
    let step = pow2(double::excess(n as nat));
    assert(step == 2);
    let x = seconds::nearest(n as nat, step);
    assert(x == (if m % 2 == 1 {
        m + 1
    } else {
        m
    }));
    assert(double::rounded(n) == (x * step) as int);
    assert(x * step == 2 * x) by (nonlinear_arith)
        requires
            step == 2,
    ;
    assert(double::rounded(n) == (if m % 2 == 0 {
        2 * m
    } else {
        2 * m + 2
    }));
}

/// A message whose arguments don't fit is told which address it was for, and what that
/// address takes.
#[verifier::spinoff_prover]
pub proof fn law_misfits_are_told_what_fits(addr: Seq<char>, args: Seq<ArgView>)
    ensures
        reads(addr, args) matches Err(CommandErrorView::WrongArgs { addr: told, expected }) ==> {
            &&& told == addr
            &&& addr == "/placard/show"@ ==> expected == "s text [s bg] [s fg] [i flash | f seconds]"@
            &&& addr == "/placard/canned"@ ==> expected == "s id [s bg] [s fg] [i flash | f seconds]"@
            &&& addr == "/placard/colour"@ ==> expected == "s bg [s fg]"@
            &&& addr == "/placard/countdown/to"@ ==> expected == "s iso8601 [s label]"@
            &&& addr == "/placard/countdown/secs"@ ==> expected == "i secs [s label]"@
            &&& addr == "/placard/clear"@ ==> expected == "no args"@
        },
{
    lemma_addresses_differ();
    if args.len() > 0 {
        lemma_tail_misfits(args.skip(1), addr, "s text [s bg] [s fg] [i flash | f seconds]"@);
        lemma_tail_misfits(args.skip(1), addr, "s id [s bg] [s fg] [i flash | f seconds]"@);
    }
}

#[verifier::spinoff_prover]
proof fn lemma_tail_misfits(args: Seq<ArgView>, addr: Seq<char>, expected: Seq<char>)
    ensures
        ({
            let wrong = CommandErrorView::WrongArgs { addr, expected };
            command::tail_of(args, wrong) matches Err(e) ==> e is WrongArgs ==> e == wrong
        }),
    decreases args.len(),
{
    if args.len() > 0 {
        lemma_tail_misfits(args.drop_last(), addr, expected);
    }
}

/// The characters that markup may not hold as they are: below the space all but tab, line
/// feed and carriage return, and from delete to the end of the second control block all
/// but next line.
pub open spec fn is_unprintable(c: char) -> bool {
    let n = c as int;
    ||| n < 32 && n != 9 && n != 10 && n != 13
    ||| 127 <= n < 160 && n != 133
}

/// The digit for `d` in base sixteen.
pub open spec fn sixteenth(d: int) -> char {
    "0123456789abcdef"@[d]
}

/// Each character stands in the markup as it is, but for those that mean something in
/// markup and those that nothing shows, which stand as references.
#[verifier::spinoff_prover]
pub proof fn law_each_character_is_marked_up(s: Seq<char>, c: char)
    requires
        !s.push(c).contains('\0'),
    ensures
        ({
            let before = markup::escaped(s);
            let m = markup::escaped(s.push(c));
            let n = c as int;
            &&& c == '&' ==> m == before + "&amp;"@
            &&& c == '<' ==> m == before + "&lt;"@
            &&& c == '>' ==> m == before + "&gt;"@
            &&& c == '"' ==> m == before + "&quot;"@
            &&& c == '\'' ==> m == before + "&#39;"@
            &&& is_unprintable(c) && n < 16 ==> m == before + "&#x"@.push(sixteenth(n)).push(';')
            &&& is_unprintable(c) && n >= 16 ==> m == before + "&#x"@.push(
                sixteenth(n / 16),
            ).push(sixteenth(n % 16)).push(';')
            &&& !is_unprintable(c) && !"&<>\"'"@.contains(c) ==> m == before.push(c)
        }),
        markup::escaped(Seq::<char>::empty()) == Seq::<char>::empty(),
{
    let t = s.push(c);
    assert(t.drop_last() =~= s);
    assert(t[t.len() - 1] == c);
    assert(c != '\0');
    assert(!s.contains('\0')) by {
        if s.contains('\0') {
            let i = choose|i: int| 0 <= i < s.len() && s[i] == '\0';
            assert(t[i] == '\0');
        }
    }
    lemma_no_nul_is_whole(s);
    lemma_no_nul_is_whole(t);
    reveal_strlit("&amp;");
    reveal_strlit("&lt;");
    reveal_strlit("&gt;");
    reveal_strlit("&quot;");
    reveal_strlit("&#39;");
    reveal_strlit("&#x");
    reveal_strlit("&<>\"'");
    lemma_sixteenths();
    let special = "&<>\"'"@;
    assert(special =~= seq!['&', '<', '>', '"', '\'']);
    assert(special[0] == '&' && special[1] == '<' && special[2] == '>' && special[3] == '"'
        && special[4] == '\'');
    let before = markup::escaped(s);
    assert(markup::escaped(t) == before + markup::entity(c));
    if c == '&' {
        assert(markup::entity(c) =~= "&amp;"@);
    } else if c == '<' {
        assert(markup::entity(c) =~= "&lt;"@);
    } else if c == '>' {
        assert(markup::entity(c) =~= "&gt;"@);
    } else if c == '"' {
        assert(markup::entity(c) =~= "&quot;"@);
    } else if c == '\'' {
        assert(markup::entity(c) =~= "&#39;"@);
    } else if is_unprintable(c) {
        let n = c as int;
        if n < 16 {
            assert(markup::entity(c) =~= "&#x"@.push(sixteenth(n)).push(';'));
        } else {
            assert(markup::entity(c) =~= "&#x"@.push(sixteenth(n / 16)).push(
                sixteenth(n % 16),
            ).push(';'));
        }
    } else {
        assert(markup::entity(c) =~= seq![c]);
        assert(before + seq![c] =~= before.push(c));
    }
}

#[verifier::spinoff_prover]
proof fn lemma_sixteenths()
    ensures
        forall|d: int| 0 <= d < 16 ==> #[trigger] scene::hex_digit(d) == sixteenth(d),
{
    reveal_strlit("0123456789abcdef");
    assert forall|d: int| 0 <= d < 16 implies #[trigger] scene::hex_digit(d) == sixteenth(d) by {
        let all = "0123456789abcdef"@;
        assert(all[0] == '0' && all[1] == '1' && all[2] == '2' && all[3] == '3' && all[4] == '4'
            && all[5] == '5' && all[6] == '6' && all[7] == '7' && all[8] == '8' && all[9] == '9'
            && all[10] == 'a' && all[11] == 'b' && all[12] == 'c' && all[13] == 'd' && all[14]
            == 'e' && all[15] == 'f');
    }
}

#[verifier::spinoff_prover]
proof fn lemma_no_nul_is_whole(s: Seq<char>)
    requires
        !s.contains('\0'),
    ensures
        markup::before_nul(s) == s,
    decreases s.len(),
{
    if s.len() > 0 {
        let t = s.drop_last();
        assert(!t.contains('\0')) by {
            if t.contains('\0') {
                let i = choose|i: int| 0 <= i < t.len() && t[i] == '\0';
                assert(s[i] == '\0');
            }
        }
        assert(s[s.len() - 1] == s.last());
        lemma_no_nul_is_whole(t);
    }
}

/// Nothing after a NUL is shown.
#[verifier::spinoff_prover]
pub proof fn law_text_ends_at_a_nul(s: Seq<char>, rest: Seq<char>)
    requires
        !s.contains('\0'),
    ensures
        markup::escaped(s.push('\0') + rest) == markup::escaped(s),
{
    lemma_no_nul_is_whole(s);
    lemma_cut_at_nul(s, rest);
}

#[verifier::spinoff_prover]
proof fn lemma_cut_at_nul(s: Seq<char>, rest: Seq<char>)
    requires
        !s.contains('\0'),
    ensures
        markup::before_nul(s.push('\0') + rest) == s,
    decreases rest.len(),
{
    lemma_no_nul_is_whole(s);
    let t = s.push('\0') + rest;
    if rest.len() == 0 {
        assert(t.drop_last() =~= s);
        assert(t.last() == '\0');
    } else {
        lemma_cut_at_nul(s, rest.drop_last());
        assert(t.drop_last() =~= s.push('\0') + rest.drop_last());
    }
}

/// Each character stands in a JSON string as it is, but for quotes, backslashes and what
/// is below the space, which stand as escapes, the short ones where there is one.
#[verifier::spinoff_prover]
pub proof fn law_each_character_is_escaped(s: Seq<char>, c: char)
    ensures
        ({
            let before = net::json_string(s).drop_last();
            let m = net::json_string(s.push(c)).drop_last();
            let n = c as int;
            &&& net::json_string(s).last() == '"'
            &&& c == '"' ==> m == before + seq!['\\', '"']
            &&& c == '\\' ==> m == before + seq!['\\', '\\']
            &&& n == 8 ==> m == before + seq!['\\', 'b']
            &&& n == 9 ==> m == before + seq!['\\', 't']
            &&& n == 10 ==> m == before + seq!['\\', 'n']
            &&& n == 12 ==> m == before + seq!['\\', 'f']
            &&& n == 13 ==> m == before + seq!['\\', 'r']
            &&& n < 32 && !(8 <= n <= 13 && n != 11) ==> m == before + "\\u00"@.push(
                sixteenth(n / 16),
            ).push(sixteenth(n % 16))
            &&& n >= 32 && c != '"' && c != '\\' ==> m == before.push(c)
        }),
        net::json_string(Seq::<char>::empty()) == seq!['"', '"'],
{
    let t = s.push(c);
    assert(t.drop_last() =~= s);
    assert(t.last() == c);
    let before = net::json_string(s).drop_last();
    let m = net::json_string(t).drop_last();
    assert(before =~= seq!['"'] + net::json_chars(s));
    assert(m =~= seq!['"'] + net::json_chars(t));
    assert(m =~= before + net::json_char(c));
    reveal_strlit("\\u00");
    lemma_sixteenths();
    let n = c as int;
    if n < 32 && !(8 <= n <= 13 && n != 11) {
        assert(net::json_char(c) =~= "\\u00"@.push(sixteenth(n / 16)).push(sixteenth(n % 16)));
    } else if n >= 32 && c != '"' && c != '\\' {
        assert(net::json_char(c) =~= seq![c]);
        assert(before + seq![c] =~= before.push(c));
    }
    assert(net::json_string(Seq::<char>::empty()) =~= seq!['"', '"']);
}

/// Numbers in a message stay what they are; one that is no number stays none.
#[verifier::spinoff_prover]
pub proof fn law_numbers_stay_what_they_are(s: SecondsView)
    ensures
        osc::settled_secs(s).text == s.text,
        !seconds::is_nan(s.bits) ==> osc::settled_secs(s) == s,
        seconds::is_nan(s.bits) ==> osc::settled_secs(s).bits == 0x7ff8_0000_0000_0000,
        seconds::is_nan(0x7ff8_0000_0000_0000),
{
}

/// What is wrong with a message stays what is wrong with it, whatever follows.
#[verifier::spinoff_prover]
pub proof fn law_the_first_misfit_decides(
    addr: Seq<char>,
    args: Seq<ArgView>,
    rest: Seq<ArgView>,
)
    requires
        addr == "/placard/show"@ || addr == "/placard/canned"@,
        args.len() > 0,
        reads(addr, args) is Err,
    ensures
        reads(addr, args + rest) == reads(addr, args),
{
    lemma_addresses_differ();
    let all = args + rest;
    assert(all[0] == args[0]);
    assert(all.skip(1) =~= args.skip(1) + rest);
    let expected = if addr == "/placard/show"@ {
        "s text [s bg] [s fg] [i flash | f seconds]"@
    } else {
        "s id [s bg] [s fg] [i flash | f seconds]"@
    };
    lemma_tail_error_stays(args.skip(1), rest, CommandErrorView::WrongArgs { addr, expected });
}

#[verifier::spinoff_prover]
proof fn lemma_tail_error_stays(args: Seq<ArgView>, rest: Seq<ArgView>, wrong: CommandErrorView)
    ensures
        command::tail_of(args, wrong) is Err ==> command::tail_of(args + rest, wrong)
            == command::tail_of(args, wrong),
    decreases rest.len(),
{
    let all = args + rest;
    if rest.len() == 0 {
        assert(all =~= args);
    } else {
        assert(all.drop_last() =~= args + rest.drop_last());
        lemma_tail_error_stays(args, rest.drop_last(), wrong);
    }
}

/// Whether a message that shows something does not give both colours yet.
pub open spec fn takes_a_colour(r: Result<CommandView, CommandErrorView>) -> bool {
    match r {
        Ok(CommandView::Show { bg, fg, .. }) => bg is None || fg is None,
        Ok(CommandView::Canned { bg, fg, .. }) => bg is None || fg is None,
        _ => false,
    }
}

/// Where a colour may stand, a text that spells none is complained of by itself.
#[verifier::spinoff_prover]
pub proof fn law_misspelt_colours_are_named(args: Seq<ArgView>, s: Seq<char>, rest: Seq<ArgView>)
    requires
        read_colour(s) is None,
    ensures
        ({
            let bad = Err::<CommandView, CommandErrorView>(
                CommandErrorView::BadColour(
                    "bad colour "@ + text::debug_quoted(s) + ": expected rrggbb"@,
                ),
            );
            let more = args.push(ArgView::String(s)) + rest;
            &&& takes_a_colour(reads("/placard/show"@, args)) ==> reads("/placard/show"@, more) == bad
            &&& takes_a_colour(reads("/placard/canned"@, args)) ==> reads("/placard/canned"@, more)
                == bad
            &&& reads("/placard/colour"@, seq![ArgView::String(s)] + rest) == bad
            &&& reads("/placard/colour"@, args) is Ok && args.len() == 1 ==> reads(
                "/placard/colour"@,
                more,
            ) == bad
        }),
{
    lemma_addresses_differ();
    lemma_text_reads_as_colour(s);
    let one = args.push(ArgView::String(s));
    let more = one + rest;
    let first = seq![ArgView::String(s)] + rest;
    assert(first[0] == ArgView::String(s));
    if args.len() > 0 {
        assert(one.skip(1) =~= args.skip(1).push(ArgView::String(s)));
        assert(one.skip(1).drop_last() =~= args.skip(1));
        assert(one.skip(1).last() == ArgView::String(s));
        assert(one[0] == args[0]);
        assert(more[0] == args[0]);
        assert(more[args.len() as int] == ArgView::String(s));
        if reads("/placard/show"@, one) is Err {
            law_the_first_misfit_decides("/placard/show"@, one, rest);
        }
        if reads("/placard/canned"@, one) is Err {
            law_the_first_misfit_decides("/placard/canned"@, one, rest);
        }
    }
}

/// Where a flash may stand, seconds that make none are complained of by themselves.
#[verifier::spinoff_prover]
pub proof fn law_bad_seconds_are_named(
    args: Seq<ArgView>,
    a: ArgView,
    secs: SecondsView,
    rest: Seq<ArgView>,
)
    requires
        forall|i: int| 0 <= i < args.len() ==> args[i] is String,
        (a matches ArgView::Float { secs: given, .. } && given == secs) || (a matches ArgView::Double {
            secs: given,
            ..
        } && given == secs),
        scene::seconds_flash(secs) is Err,
    ensures
        ({
            let bad = Err::<CommandView, CommandErrorView>(
                CommandErrorView::BadFlash(scene::seconds_flash(secs)->Err_0),
            );
            let more = args.push(a) + rest;
            &&& reads("/placard/show"@, args) is Ok ==> reads("/placard/show"@, more) == bad
            &&& reads("/placard/canned"@, args) is Ok ==> reads("/placard/canned"@, more) == bad
        }),
{
    lemma_addresses_differ();
    let one = args.push(a);
    if args.len() > 0 {
        let tail = args.skip(1);
        assert(one.skip(1) =~= tail.push(a));
        assert(one.skip(1).drop_last() =~= tail);
        assert(one.skip(1).last() == a);
        assert(one[0] == args[0]);
        assert forall|i: int| 0 <= i < tail.len() implies tail[i] is String by {
            assert(args[i + 1] is String);
        }
        lemma_strings_ask_no_flash(
            tail,
            CommandErrorView::WrongArgs {
                addr: "/placard/show"@,
                expected: "s text [s bg] [s fg] [i flash | f seconds]"@,
            },
        );
        lemma_strings_ask_no_flash(
            tail,
            CommandErrorView::WrongArgs {
                addr: "/placard/canned"@,
                expected: "s id [s bg] [s fg] [i flash | f seconds]"@,
            },
        );
        if reads("/placard/show"@, one) is Err {
            law_the_first_misfit_decides("/placard/show"@, one, rest);
        }
        if reads("/placard/canned"@, one) is Err {
            law_the_first_misfit_decides("/placard/canned"@, one, rest);
        }
    }
}

#[verifier::spinoff_prover]
proof fn lemma_strings_ask_no_flash(args: Seq<ArgView>, wrong: CommandErrorView)
    requires
        forall|i: int| 0 <= i < args.len() ==> args[i] is String,
    ensures
        command::tail_of(args, wrong) matches Ok(t) ==> t.flash is None,
    decreases args.len(),
{
    if args.len() > 0 {
        let before = args.drop_last();
        assert forall|i: int| 0 <= i < before.len() implies before[i] is String by {
            assert(args[i] is String);
        }
        assert(args[args.len() - 1] is String);
        lemma_strings_ask_no_flash(before, wrong);
    }
}

/// A text that names no instant is complained of by itself, whatever follows it.
#[verifier::spinoff_prover]
pub proof fn law_bad_instants_are_named(raw: Seq<char>, rest: Seq<ArgView>)
    requires
        !time::iso_names(raw),
    ensures
        reads("/placard/countdown/to"@, seq![ArgView::String(raw)] + rest) == Err::<
            CommandView,
            CommandErrorView,
        >(CommandErrorView::BadTimestamp(raw)),
{
    lemma_addresses_differ();
    let args = seq![ArgView::String(raw)] + rest;
    assert(args[0] == ArgView::String(raw));
}

} // verus!
