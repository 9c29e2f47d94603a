//! The state machine: the one place that owns the scene, applies commands to it,
//! and decides what is recorded, persisted, answered and shown.
//!
//! Time comes in as an argument: `now` is the wall clock, `clock` a clock that only
//! goes forward.

use vstd::prelude::*;

use crate::command;
use crate::command::{Command, CommandError, CommandErrorView, CommandView};
use crate::config::Config;
use crate::history;
use crate::history::{EntryView, History, HistoryEntry};
use crate::render;
use crate::render::{RenderSpec, RenderSpecView};
use crate::scene;
use crate::scene::{Content, ContentView, Flash, Rgb, Scene, SceneView};
use crate::status;
use crate::status::{FlashStatus, LastCommand, LastCommandView, Release, StatusReport, StatusView};
use crate::text;
use crate::time;
use crate::time::{Duration, Timestamp};

verus! {

/// What a command is answered with when it is accepted.
#[derive(Debug, PartialEq, Eq)]
pub enum Reply {
    Done,
    Status(StatusReport),
    History(Vec<HistoryEntry>),
}

/// A reply by its texts.
pub enum ReplyView {
    Done,
    Status(StatusView),
    History(Seq<EntryView>),
}

impl View for Reply {
    type V = ReplyView;

    open spec fn view(&self) -> ReplyView {
        match *self {
            Reply::Done => ReplyView::Done,
            Reply::Status(s) => ReplyView::Status(s@),
            Reply::History(h) => ReplyView::History(history::entry_views(h@)),
        }
    }
}

/// An answer by its texts.
pub open spec fn answer_view(r: Result<Reply, CommandError>) -> Result<ReplyView, CommandErrorView> {
    match r {
        Ok(reply) => Ok(reply@),
        Err(e) => Err(e@),
    }
}

/// An inbound message plus enough provenance to record it. Parse failures travel
/// here too (as `Err`) so they appear in the history and are answered like
/// everyone else's.
#[derive(Debug, PartialEq, Eq)]
pub struct Envelope {
    pub command: Result<Command, CommandError>,
    /// The wire text as received (OSC rendered readably), for the history.
    pub raw: String,
    pub via: &'static str,
    pub from: Option<String>,
}

/// An envelope by its texts.
pub struct EnvelopeView {
    pub command: Result<CommandView, CommandErrorView>,
    pub raw: Seq<char>,
    pub via: Seq<char>,
    pub from: Option<Seq<char>>,
}

impl View for Envelope {
    type V = EnvelopeView;

    open spec fn view(&self) -> EnvelopeView {
        EnvelopeView {
            command: command::parsed(self.command),
            raw: self.raw@,
            via: self.via@,
            from: text::opt_text(self.from),
        }
    }
}

/// What survives a power cycle: the scene, where it came from, and whether it was
/// flashing with no end. Timed flashes are transient attention-getters and are
/// deliberately not persisted; an endless one is a state the operator chose and
/// expects to still be there after a power blip.
#[derive(Debug, PartialEq, Eq)]
pub struct PersistedState {
    pub scene: Scene,
    pub canned_id: Option<String>,
    pub flash_forever: bool,
}

/// A persisted state by its texts.
pub struct PersistedView {
    pub scene: SceneView,
    pub canned_id: Option<Seq<char>>,
    pub flash_forever: bool,
}

impl View for PersistedState {
    type V = PersistedView;

    open spec fn view(&self) -> PersistedView {
        PersistedView {
            scene: self.scene@,
            canned_id: text::opt_text(self.canned_id),
            flash_forever: self.flash_forever,
        }
    }
}

/// A flash in progress. `duration` is `None` for one that runs until the next
/// command.
#[derive(Debug, Clone, Copy, PartialEq, Eq)]
pub struct RunningFlash {
    pub started: Duration,
    pub duration: Option<Duration>,
}

/// How long a colour phase of a flash lasts.
pub const FLASH_PERIOD_MS: u128 = 500;

/// Whether a flash is over, `elapsed` into it.
pub open spec fn flash_over(elapsed: Duration, duration: Option<Duration>) -> bool {
    duration matches Some(d) && elapsed.nanos >= d.nanos
}

/// Whether the colours are inverted `elapsed` into a flash: in its even phases.
pub open spec fn inverted_at(elapsed: Duration) -> bool {
    (elapsed.nanos as int / 1_000_000) / 500 % 2 == 0
}

/// Whether the colours are currently inverted, `elapsed` into a flash; `None` once
/// the flash is over (`duration` of `None` never is). Starts inverted for immediate
/// attention and, for a timed flash, lands back on the real colours: half-second
/// phases, even ones inverted.
pub fn flash_invert(elapsed: Duration, duration: Option<Duration>) -> (r: Option<bool>)
    ensures
        r == (if flash_over(elapsed, duration) {
            None
        } else {
            Some(inverted_at(elapsed))
        }),
{
    match duration {
        Some(d) => if elapsed.nanos >= d.nanos {
            return None;
        },
        None => {},
    }
    Some(elapsed.as_millis() / FLASH_PERIOD_MS % 2 == 0)
}

/// A flash starts inverted, and the colours swap every half second as long as it
/// runs.
pub proof fn law_flash_alternates(elapsed: Duration, later: Duration)
    ensures
        elapsed.nanos < 500_000_000 ==> inverted_at(elapsed),
        later.nanos == elapsed.nanos + 500_000_000 ==> inverted_at(later) == !inverted_at(elapsed),
        elapsed.nanos < later.nanos < elapsed.nanos + 500_000_000 && inverted_at(elapsed)
            != inverted_at(later) ==> later.nanos as int / 500_000_000 == elapsed.nanos as int
            / 500_000_000 + 1,
{
    let a = elapsed.nanos as int;
    let b = later.nanos as int;
    assert((a / 1_000_000) / 500 == a / 500_000_000);
    assert((b / 1_000_000) / 500 == b / 500_000_000);
}

/// An endless flash never settles; a timed one is over exactly from its duration on.
pub proof fn law_flash_ends_on_time(elapsed: Duration, d: Duration)
    ensures
        !flash_over(elapsed, None),
        flash_over(elapsed, Some(d)) <==> elapsed.nanos >= d.nanos,
{
}

/// What lies between two readings of the forward clock.
pub open spec fn between(from: Duration, to: Duration) -> Duration {
    Duration {
        nanos: if to.nanos >= from.nanos {
            (to.nanos - from.nanos) as u128
        } else {
            0
        },
    }
}

/// Everything the state thread knows, by its texts.
pub struct StateView {
    pub scene: SceneView,
    pub canned_id: Option<Seq<char>>,
    pub last_command: Option<LastCommandView>,
    pub started: Duration,
    pub pushed: Option<RenderSpecView>,
    pub history: Seq<EntryView>,
    pub appends: int,
    pub flash: Option<RunningFlash>,
    pub release: Release,
}

/// The flash that a command asks for, running from `clock` on.
pub open spec fn started_flash(flash: Flash, clock: Duration) -> Option<RunningFlash> {
    match flash {
        Flash::Off => None,
        Flash::For(d) => Some(RunningFlash { started: clock, duration: Some(d) }),
        Flash::Forever => Some(RunningFlash { started: clock, duration: None }),
    }
}

/// A colour that is given, or else another.
pub open spec fn or_colour(given: Option<Rgb>, other: Rgb) -> Rgb {
    match given {
        Some(c) => c,
        None => other,
    }
}

/// A scene with new content and the colours that are given.
pub open spec fn repainted(
    s: SceneView,
    bg: Option<Rgb>,
    fg: Option<Rgb>,
    content: ContentView,
) -> SceneView {
    SceneView { bg: or_colour(bg, s.bg), fg: or_colour(fg, s.fg), content }
}

/// A canned message as a scene: the colours that are given, else its own, else the
/// defaults.
pub open spec fn canned_scene(
    c: Config,
    id: Seq<char>,
    bg: Option<Rgb>,
    fg: Option<Rgb>,
) -> SceneView {
    let m = c.canned@[id];
    SceneView {
        bg: or_colour(bg, or_colour(m.bg, c.defaults.bg)),
        fg: or_colour(fg, or_colour(m.fg, c.defaults.fg)),
        content: ContentView::Text { text: m.text },
    }
}

/// The flash as clients see it: absent when steady, otherwise how much longer it
/// runs.
pub open spec fn flash_report(flash: Option<RunningFlash>, clock: Duration) -> Option<FlashStatus> {
    match flash {
        None => None,
        Some(f) => match f.duration {
            None => Some(FlashStatus::Forever { infinite: true }),
            Some(d) => Some(
                FlashStatus::Timed { remaining: between(between(f.started, clock), d) },
            ),
        },
    }
}

/// Whole seconds up.
pub open spec fn uptime(started: Duration, clock: Duration) -> u64 {
    let secs = between(started, clock).nanos as int / 1_000_000_000;
    if secs > u64::MAX {
        u64::MAX
    } else {
        secs as u64
    }
}

/// Whether a command only asks.
pub open spec fn is_query(c: CommandView) -> bool {
    c is Status || c is History
}

/// The state after a command, and what the command is answered with. Any command
/// that is accepted, but a query, ends a running flash; `show` and `canned` may start
/// a new one. A command that is refused changes nothing.
pub open spec fn applied(
    st: StateView,
    cfg: Config,
    c: CommandView,
    now: Timestamp,
    clock: Duration,
) -> (StateView, Result<ReplyView, CommandErrorView>) {
    match c {
        CommandView::Show { text, bg, fg, flash } => (
            StateView {
                scene: repainted(st.scene, bg, fg, ContentView::Text { text }),
                canned_id: None,
                flash: started_flash(flash, clock),
                ..st
            },
            Ok(ReplyView::Done),
        ),
        CommandView::Canned { id, bg, fg, flash } => if cfg.canned@.contains_key(id) {
            let asked = match flash {
                Some(f) => f,
                None => cfg.canned@[id].flash,
            };
            (
                StateView {
                    scene: canned_scene(cfg, id, bg, fg),
                    canned_id: Some(id),
                    flash: started_flash(asked, clock),
                    ..st
                },
                Ok(ReplyView::Done),
            )
        } else {
            (st, Err(CommandErrorView::UnknownCanned(id)))
        },
        CommandView::Colour { bg, fg } => (
            StateView {
                scene: repainted(st.scene, bg, fg, st.scene.content),
                canned_id: None,
                flash: None,
                ..st
            },
            Ok(ReplyView::Done),
        ),
        CommandView::CountdownTo { target, label, bg, fg } => (
            StateView {
                scene: repainted(st.scene, bg, fg, ContentView::Countdown { target, label }),
                canned_id: None,
                flash: None,
                ..st
            },
            Ok(ReplyView::Done),
        ),
        CommandView::CountdownSecs { secs, label, bg, fg } => (
            StateView {
                scene: repainted(
                    st.scene,
                    bg,
                    fg,
                    ContentView::Countdown { target: now.later(secs), label },
                ),
                canned_id: None,
                flash: None,
                ..st
            },
            Ok(ReplyView::Done),
        ),
        CommandView::Clear => (
            StateView {
                scene: scene::cleared_scene(cfg.defaults.fg),
                canned_id: None,
                flash: None,
                ..st
            },
            Ok(ReplyView::Done),
        ),
        CommandView::Status => (
            st,
            Ok(
                ReplyView::Status(
                    status::reported(
                        st.scene,
                        st.canned_id,
                        uptime(st.started, clock),
                        st.last_command,
                        now,
                        flash_report(st.flash, clock),
                        st.release,
                    ),
                ),
            ),
        ),
        CommandView::History => (st, Ok(ReplyView::History(st.history.reverse()))),
    }
}

/// Whether the instant that a command asks for exists: a countdown of seconds must
/// end before time does.
pub open spec fn reachable(c: Result<CommandView, CommandErrorView>, now: Timestamp) -> bool {
    c matches Ok(CommandView::CountdownSecs { secs, .. }) ==> now.secs() + secs <= time::MAX_SECS
}

/// What is persisted of a state.
pub open spec fn persisted(st: StateView) -> PersistedView {
    PersistedView {
        scene: st.scene,
        canned_id: st.canned_id,
        flash_forever: st.flash matches Some(f) && f.duration is None,
    }
}

/// What is to be done about a message: the answer to send, the entry to append to
/// the history log, the state to persist.
#[derive(Debug, PartialEq, Eq)]
pub struct Outcome {
    pub answer: Result<Reply, CommandError>,
    pub entry: Option<HistoryEntry>,
    pub persist: Option<PersistedState>,
}

/// What is to be done about a message, by its texts.
pub struct OutcomeView {
    pub answer: Result<ReplyView, CommandErrorView>,
    pub entry: Option<EntryView>,
    pub persist: Option<PersistedView>,
}

impl View for Outcome {
    type V = OutcomeView;

    open spec fn view(&self) -> OutcomeView {
        OutcomeView {
            answer: answer_view(self.answer),
            entry: match self.entry {
                Some(e) => Some(e@),
                None => None,
            },
            persist: match self.persist {
                Some(p) => Some(p@),
                None => None,
            },
        }
    }
}

/// The entry that a message leaves in the history.
pub open spec fn entry_of(
    env: EnvelopeView,
    error: Option<CommandErrorView>,
    now: Timestamp,
) -> EntryView {
    EntryView {
        at: now,
        via: env.via,
        from: env.from,
        raw: history::stored_raw(env.raw),
        ok: error is None,
        error: match error {
            Some(e) => Some(command::complaint(e)),
            None => None,
        },
    }
}

/// The state after a message, and what is to be done about it. Queries stay out of
/// the history; rejected messages are recorded but change nothing else that lasts;
/// accepted ones are recorded, remembered as the last command, and persisted.
pub open spec fn handled(
    st: StateView,
    cfg: Config,
    env: EnvelopeView,
    now: Timestamp,
    clock: Duration,
) -> (StateView, OutcomeView) {
    let (after, answer) = match env.command {
        Ok(c) => applied(st, cfg, c, now, clock),
        Err(e) => (st, Err(e)),
    };
    if env.command matches Ok(c) && is_query(c) {
        (after, OutcomeView { answer, entry: None, persist: None })
    } else {
        let error = match answer {
            Ok(_) => None,
            Err(e) => Some(e),
        };
        let entry = entry_of(env, error, now);
        let noted = StateView { history: history::recorded(after.history, entry), ..after };
        match answer {
            Ok(_) => {
                let done = StateView {
                    last_command: Some(
                        LastCommandView { at: now, via: env.via, from: env.from },
                    ),
                    ..noted
                };
                (done, OutcomeView { answer, entry: Some(entry), persist: Some(persisted(done)) })
            },
            Err(_) => (noted, OutcomeView { answer, entry: Some(entry), persist: None }),
        }
    }
}

/// The state thread's state.
#[derive(Debug)]
pub struct StateThread {
    pub config: Config,
    pub scene: Scene,
    pub canned_id: Option<String>,
    pub last_command: Option<LastCommand>,
    pub started: Duration,
    pub last_pushed: Option<RenderSpec>,
    pub history: History,
    pub history_appends: usize,
    pub active_flash: Option<RunningFlash>,
    pub release: Release,
}

/// A render spec, if any, by its texts.
pub open spec fn spec_view(s: Option<RenderSpec>) -> Option<RenderSpecView> {
    match s {
        Some(s) => Some(s@),
        None => None,
    }
}

impl View for StateThread {
    type V = StateView;

    open spec fn view(&self) -> StateView {
        StateView {
            scene: self.scene@,
            canned_id: text::opt_text(self.canned_id),
            last_command: status::last_view(self.last_command),
            started: self.started,
            pushed: spec_view(self.last_pushed),
            history: self.history@,
            appends: self.history_appends as int,
            flash: self.active_flash,
            release: self.release,
        }
    }
}

/// The scene when there is no saved state: the canned message that the defaults
/// name, or the cleared scene if they name none.
pub open spec fn boot_view(c: Config) -> SceneView {
    if c.canned@.contains_key(c.defaults.boot_scene@) {
        canned_scene(c, c.defaults.boot_scene@, None, None)
    } else {
        scene::cleared_scene(c.defaults.fg)
    }
}

/// The scene when there is no saved state.
pub fn boot_scene(config: &Config) -> (s: Scene)
    ensures
        s@ == boot_view(*config),
{
    match config.canned.get(config.defaults.boot_scene.as_str()) {
        Some(canned) => Scene {
            bg: canned.bg.unwrap_or(config.defaults.bg),
            fg: canned.fg.unwrap_or(config.defaults.fg),
            content: Content::Text { text: canned.text.clone() },
        },
        None => Scene::cleared(config.defaults.fg),
    }
}

/// The state at start: what was saved, or else the boot scene; the history that the
/// log still tells; an endless flash resumed, its phase restarted.
pub open spec fn booted(
    c: Config,
    saved: Option<PersistedView>,
    lines: Seq<Option<EntryView>>,
    clock: Duration,
    release: Release,
) -> StateView {
    StateView {
        scene: match saved {
            Some(p) => p.scene,
            None => boot_view(c),
        },
        canned_id: match saved {
            Some(p) => p.canned_id,
            None => Some(c.defaults.boot_scene@),
        },
        last_command: None,
        started: clock,
        pushed: None,
        history: history::newest(history::entries_in(lines)),
        appends: 0,
        flash: if saved matches Some(p) && p.flash_forever {
            Some(RunningFlash { started: clock, duration: None })
        } else {
            None
        },
        release,
    }
}

/// A persisted state, if any, by its texts.
pub open spec fn saved_view(p: Option<PersistedState>) -> Option<PersistedView> {
    match p {
        Some(p) => Some(p@),
        None => None,
    }
}

impl StateThread {
    /// Start from what was persisted, if it could be read, and from the lines of
    /// the history log as they read. The second value says whether the log has to
    /// be compacted.
    pub fn new(
        config: Config,
        saved: Option<PersistedState>,
        lines: Vec<Option<HistoryEntry>>,
        clock: Duration,
        release: Release,
    ) -> (r: (StateThread, bool))
        ensures
            r.0@ == booted(
                config,
                saved_view(saved),
                history::line_views(lines@),
                clock,
                release,
            ),
            r.0.config == config,
            r.1 == (lines@.len() > history::HISTORY_CAP),
    {
        let (scene, canned_id, flash_forever) = match saved {
            Some(p) => (p.scene, p.canned_id, p.flash_forever),
            None => (boot_scene(&config), Some(config.defaults.boot_scene.clone()), false),
        };
        let (history, oversized) = History::load(lines);
        let active_flash = if flash_forever {
            Some(RunningFlash { started: clock, duration: None })
        } else {
            None
        };
        let state = StateThread {
            config,
            scene,
            canned_id,
            last_command: None,
            started: clock,
            last_pushed: None,
            history,
            history_appends: 0,
            active_flash,
            release,
        };
        (state, oversized)
    }

    fn start_flash(&mut self, flash: Flash, clock: Duration)
        ensures
            *final(self) == (StateThread {
                active_flash: started_flash(flash, clock),
                ..*old(self)
            }),
    {
        self.active_flash = match flash {
            Flash::Off => None,
            Flash::For(d) => Some(RunningFlash { started: clock, duration: Some(d) }),
            Flash::Forever => Some(RunningFlash { started: clock, duration: None }),
        };
    }

    /// The flash as clients see it: absent when steady, otherwise how much longer
    /// it runs.
    pub fn flash_status(&self, clock: Duration) -> (r: Option<FlashStatus>)
        ensures
            r == flash_report(self@.flash, clock),
    {
        match self.active_flash {
            None => None,
            Some(flash) => match flash.duration {
                None => Some(FlashStatus::Forever { infinite: true }),
                Some(duration) => Some(
                    FlashStatus::Timed {
                        remaining: duration.saturating_sub(clock.saturating_sub(flash.started)),
                    },
                ),
            },
        }
    }

    fn uptime_secs(&self, clock: Duration) -> (r: u64)
        ensures
            r == uptime(self@.started, clock),
    {
        let secs: u128 = clock.saturating_sub(self.started).as_secs();
        if secs > u64::MAX as u128 {
            u64::MAX
        } else {
            secs as u64
        }
    }

    fn repaint(&mut self, bg: Option<Rgb>, fg: Option<Rgb>)
        ensures
            final(self)@ == (StateView {
                scene: repainted(old(self)@.scene, bg, fg, old(self)@.scene.content),
                canned_id: None,
                ..old(self)@
            }),
            final(self).config == old(self).config,
    {
        self.scene.bg = bg.unwrap_or(self.scene.bg);
        self.scene.fg = fg.unwrap_or(self.scene.fg);
        self.canned_id = None;
    }

    /// Apply a command to the scene. Errors leave the scene untouched. Any
    /// scene-changing command ends a running flash; show/canned may start a new
    /// one.
    pub fn apply(&mut self, command: &Command, now: Timestamp, clock: Duration) -> (r: Result<
        Reply,
        CommandError,
    >)
        requires
            reachable(Ok(command@), now),
        ensures
            (final(self)@, answer_view(r)) == applied(
                old(self)@,
                old(self).config,
                command@,
                now,
                clock,
            ),
            final(self).config == old(self).config,
    {
        match command {
            Command::Status => {
                let report = status::report(
                    &self.scene,
                    text::clone_opt(&self.canned_id),
                    self.uptime_secs(clock),
                    clone_last(&self.last_command),
                    now,
                    self.flash_status(clock),
                    self.release,
                );
                return Ok(Reply::Status(report));
            },
            Command::History => {
                return Ok(Reply::History(self.history.newest_first()));
            },
            _ => {},
        }
        match command {
            Command::Show { text, bg, fg, flash } => {
                self.repaint(*bg, *fg);
                self.scene.content = Content::Text { text: text.clone() };
                self.start_flash(*flash, clock);
            },
            Command::Canned { id, bg, fg, flash } => {
                match self.config.canned.get(id.as_str()) {
                    None => {
                        return Err(CommandError::UnknownCanned(id.clone()));
                    },
                    Some(canned) => {
                        let asked = flash.unwrap_or(canned.flash);
                        self.scene = Scene {
                            bg: bg.unwrap_or(canned.bg.unwrap_or(self.config.defaults.bg)),
                            fg: fg.unwrap_or(canned.fg.unwrap_or(self.config.defaults.fg)),
                            content: Content::Text { text: canned.text.clone() },
                        };
                        self.canned_id = Some(id.clone());
                        self.start_flash(asked, clock);
                    },
                }
            },
            Command::Colour { bg, fg } => {
                self.repaint(*bg, *fg);
                self.active_flash = None;
            },
            Command::CountdownTo { target, label, bg, fg } => {
                self.repaint(*bg, *fg);
                self.scene.content = Content::Countdown {
                    target: *target,
                    label: text::clone_opt(label),
                };
                self.active_flash = None;
            },
            Command::CountdownSecs { secs, label, bg, fg } => {
                // Converted to an absolute target at receipt; identical to
                // countdown_to from here on, so it survives a restart.
                self.repaint(*bg, *fg);
                self.scene.content = Content::Countdown {
                    target: now.plus_secs(*secs),
                    label: text::clone_opt(label),
                };
                self.active_flash = None;
            },
            Command::Clear => {
                self.scene = Scene::cleared(self.config.defaults.fg);
                self.canned_id = None;
                self.active_flash = None;
            },
            Command::Status | Command::History => {},
        }
        Ok(Reply::Done)
    }
}

/// The spec for a state: its scene, inverted while a flash is in an inverted phase.
pub open spec fn current_spec(
    st: StateView,
    cfg: Config,
    now: Timestamp,
    clock: Duration,
) -> RenderSpecView {
    let invert = match st.flash {
        Some(f) => !flash_over(between(f.started, clock), f.duration) && inverted_at(
            between(f.started, clock),
        ),
        None => false,
    };
    render::derived(st.scene, now, cfg, invert)
}

/// The state after the screen was brought up to date, and the spec to put on it: a
/// flash that is over is gone, and a spec is pushed only if it differs from the last
/// one pushed.
pub open spec fn refreshed(st: StateView, cfg: Config, now: Timestamp, clock: Duration) -> (
    StateView,
    Option<RenderSpecView>,
) {
    let flash = match st.flash {
        Some(f) => if flash_over(between(f.started, clock), f.duration) {
            None
        } else {
            Some(f)
        },
        None => None,
    };
    let spec = current_spec(st, cfg, now, clock);
    (
        StateView { flash, pushed: Some(spec), ..st },
        if st.pushed == Some(spec) {
            None
        } else {
            Some(spec)
        },
    )
}

/// How long to wait for a message before the screen is looked at again. The tick
/// tightens while a flash is running so that the colour swaps land close to their
/// boundaries.
pub open spec fn tick_of(flash: Option<RunningFlash>) -> int {
    if flash is Some {
        50
    } else {
        250
    }
}

impl StateThread {
    /// Put a message into the history; the entry is also the line to append to the
    /// log.
    fn record(&mut self, envelope: &Envelope, error: Option<&CommandError>, now: Timestamp) -> (r:
        HistoryEntry)
        ensures
            r@ == entry_of(envelope@, crate::osc::opt_error(error), now),
            final(self)@ == (StateView {
                history: history::recorded(old(self)@.history, r@),
                ..old(self)@
            }),
            final(self).config == old(self).config,
    {
        let entry = HistoryEntry {
            at: now,
            via: envelope.via.to_owned(),
            from: text::clone_opt(&envelope.from),
            raw: history::truncate_raw(envelope.raw.as_str()),
            ok: error.is_none(),
            error: match error {
                Some(e) => Some(e.to_string()),
                None => None,
            },
        };
        self.history.record(entry.clone());
        entry
    }

    /// What is persisted of this state.
    pub fn persist(&self) -> (r: PersistedState)
        ensures
            r@ == persisted(self@),
    {
        let flash_forever = match self.active_flash {
            Some(f) => f.duration.is_none(),
            None => false,
        };
        PersistedState {
            scene: self.scene.clone(),
            canned_id: text::clone_opt(&self.canned_id),
            flash_forever,
        }
    }

    /// Take in a message: apply it, record it unless it is a query, remember and
    /// persist it if it was accepted, and say what to answer.
    pub fn handle(&mut self, envelope: Envelope, now: Timestamp, clock: Duration) -> (r: Outcome)
        requires
            reachable(envelope@.command, now),
        ensures
            (final(self)@, r@) == handled(old(self)@, old(self).config, envelope@, now, clock),
            final(self).config == old(self).config,
    {
        let answer = match &envelope.command {
            Ok(command) => self.apply(command, now, clock),
            Err(e) => Err(e.clone()),
        };
        // Queries stay out of the history or the UI's own polling would flood it.
        let query = match &envelope.command {
            Ok(Command::Status) => true,
            Ok(Command::History) => true,
            _ => false,
        };
        if query {
            return Outcome { answer, entry: None, persist: None };
        }
        match answer {
            Ok(reply) => {
                let entry = self.record(&envelope, None, now);
                self.last_command = Some(
                    LastCommand {
                        at: now,
                        via: envelope.via,
                        from: text::clone_opt(&envelope.from),
                    },
                );
                let persist = self.persist();
                Outcome { answer: Ok(reply), entry: Some(entry), persist: Some(persist) }
            },
            Err(e) => {
                let entry = self.record(&envelope, Some(&e), now);
                Outcome { answer: Err(e), entry: Some(entry), persist: None }
            },
        }
    }

    /// An entry went to the log. Once enough have, the log is due to be rewritten as
    /// just the ring, and the count starts over.
    pub fn appended(&mut self) -> (due: bool)
        ensures
            due == (old(self)@.appends + 1 >= history::HISTORY_COMPACT_EVERY),
            final(self)@ == (StateView {
                appends: if due {
                    0
                } else {
                    old(self)@.appends + 1
                },
                ..old(self)@
            }),
            final(self).config == old(self).config,
    {
        if self.history_appends >= history::HISTORY_COMPACT_EVERY - 1 {
            self.history_appends = 0;
            true
        } else {
            self.history_appends = self.history_appends + 1;
            false
        }
    }

    /// The log as compaction rewrites it: the ring, oldest first, never more than
    /// the cap.
    pub fn compacted(&self) -> (r: Vec<HistoryEntry>)
        ensures
            history::entry_views(r@) == self@.history,
            r@.len() <= history::HISTORY_CAP,
    {
        self.history.oldest_first()
    }

    /// Derive the displayed strings and return a spec only when one changed.
    pub fn push_if_changed(&mut self, now: Timestamp, clock: Duration) -> (r: Option<RenderSpec>)
        ensures
            (final(self)@, spec_view(r)) == refreshed(old(self)@, old(self).config, now, clock),
            final(self).config == old(self).config,
    {
        let invert = match self.active_flash {
            Some(f) => match flash_invert(clock.saturating_sub(f.started), f.duration) {
                Some(invert) => invert,
                None => {
                    // Flash over; settle on the real colours and stop fast ticks.
                    self.active_flash = None;
                    false
                },
            },
            None => false,
        };
        let spec = render::derive_spec(&self.scene, now, &self.config, invert);
        let same = match &self.last_pushed {
            Some(last) => last.same_as(&spec),
            None => false,
        };
        if same {
            None
        } else {
            self.last_pushed = Some(spec.clone());
            Some(spec)
        }
    }

    /// The spec that was to be pushed could not be sent: the screen still shows
    /// `shown`, the last one that was. The next look compares with that.
    pub fn push_failed(&mut self, shown: Option<RenderSpec>)
        ensures
            final(self)@ == (StateView { pushed: spec_view(shown), ..old(self)@ }),
            final(self).config == old(self).config,
    {
        self.last_pushed = shown;
    }

    /// How long to wait for a message before the screen is looked at again, in
    /// milliseconds.
    pub fn tick_ms(&self) -> (ms: u64)
        ensures
            ms == tick_of(self@.flash),
    {
        if self.active_flash.is_some() {
            50
        } else {
            250
        }
    }
}

/// A rejected message leaves everything on screen as it was: the scene, where it
/// came from, a flash that runs, and what a restart would bring back. It is recorded
/// with its reason.
pub proof fn law_rejected_message_leaves_the_scene(
    st: StateView,
    cfg: Config,
    env: EnvelopeView,
    now: Timestamp,
    clock: Duration,
)
    requires
        handled(st, cfg, env, now, clock).1.answer is Err,
    ensures
        ({
            let (after, out) = handled(st, cfg, env, now, clock);
            &&& after.scene == st.scene
            &&& after.canned_id == st.canned_id
            &&& after.flash == st.flash
            &&& after.last_command == st.last_command
            &&& out.persist is None
            &&& out.entry matches Some(e) && !e.ok && e.error == Some(
                command::complaint(out.answer->Err_0),
            )
        }),
{
}

/// A query changes nothing, is not recorded and is not persisted.
pub proof fn law_queries_change_nothing(
    st: StateView,
    cfg: Config,
    env: EnvelopeView,
    now: Timestamp,
    clock: Duration,
)
    requires
        env.command matches Ok(c) && is_query(c),
    ensures
        ({
            let (after, out) = handled(st, cfg, env, now, clock);
            after == st && out.answer is Ok && out.entry is None && out.persist is None
        }),
{
}

/// Every message that is not a query is recorded, newest last, and answered; an
/// accepted one is what a restart brings back.
pub proof fn law_messages_are_recorded_and_persisted(
    st: StateView,
    cfg: Config,
    env: EnvelopeView,
    now: Timestamp,
    clock: Duration,
)
    requires
        !(env.command matches Ok(c) && is_query(c)),
    ensures
        ({
            let (after, out) = handled(st, cfg, env, now, clock);
            &&& out.entry matches Some(e) && after.history == history::recorded(st.history, e)
                && after.history.last() == e && e.ok == (out.answer is Ok) && e.at == now
            &&& st.history.len() <= history::HISTORY_CAP ==> after.history.len()
                <= history::HISTORY_CAP
            &&& out.answer is Ok ==> out.persist == Some(persisted(after))
                && after.last_command == Some(
                LastCommandView { at: now, via: env.via, from: env.from },
            )
        }),
{
}

/// The history answers newest first, and never with more than the cap.
pub proof fn law_history_answers_newest_first(
    st: StateView,
    cfg: Config,
    now: Timestamp,
    clock: Duration,
)
    ensures
        applied(st, cfg, CommandView::History, now, clock).1 matches Ok(ReplyView::History(h))
            && h.len() == st.history.len() && forall|i: int|
            0 <= i < h.len() ==> h[i] == st.history[st.history.len() - 1 - i],
{
}

/// A power cycle brings the same scene back. An endless flash resumes; a timed one
/// does not, and nothing starts flashing that was not.
pub proof fn law_restart_restores_the_scene(
    st: StateView,
    cfg: Config,
    lines: Seq<Option<EntryView>>,
    clock: Duration,
    release: Release,
)
    ensures
        ({
            let reborn = booted(cfg, Some(persisted(st)), lines, clock, release);
            &&& reborn.scene == st.scene
            &&& reborn.canned_id == st.canned_id
            &&& match st.flash {
                Some(RunningFlash { duration: None, .. }) => reborn.flash == Some(
                    RunningFlash { started: clock, duration: None },
                ),
                _ => reborn.flash is None,
            }
            &&& persisted(reborn) == persisted(st)
        }),
{
}

/// What is on disk keeps up with what is on screen: if a restart would have brought
/// the scene, its origin and an endless flash back before a message, it does so after
/// it.
pub proof fn law_saved_state_keeps_up(
    st: StateView,
    cfg: Config,
    env: EnvelopeView,
    now: Timestamp,
    clock: Duration,
    disk: PersistedView,
)
    requires
        disk == persisted(st),
    ensures
        ({
            let (after, out) = handled(st, cfg, env, now, clock);
            let disk_after = match out.persist {
                Some(p) => p,
                None => disk,
            };
            disk_after == persisted(after)
        }),
{
}

/// With no saved state the screen shows the boot scene, steady, under its own name.
pub proof fn law_first_boot_shows_the_boot_scene(
    cfg: Config,
    lines: Seq<Option<EntryView>>,
    clock: Duration,
    release: Release,
)
    requires
        crate::config::config_fault(cfg) is None,
    ensures
        ({
            let first = booted(cfg, None, lines, clock, release);
            let id = cfg.defaults.boot_scene@;
            &&& first.scene == canned_scene(cfg, id, None, None)
            &&& first.canned_id == Some(id)
            &&& first.flash is None
        }),
{
}

/// Any later command ends a flash: after an accepted command that is not a query, the
/// only flash there can be is the one that this very command started.
pub proof fn law_commands_end_a_flash(
    st: StateView,
    cfg: Config,
    c: CommandView,
    now: Timestamp,
    clock: Duration,
)
    requires
        !is_query(c),
        applied(st, cfg, c, now, clock).1 is Ok,
    ensures
        applied(st, cfg, c, now, clock).0.flash matches Some(f) ==> f.started == clock && (c is Show
            || c is Canned),
{
}

/// The command's own flash overrides a canned message's, either way; without one,
/// the message's own stands.
pub proof fn law_canned_flash_can_be_overridden(
    st: StateView,
    cfg: Config,
    id: Seq<char>,
    bg: Option<Rgb>,
    fg: Option<Rgb>,
    flash: Option<Flash>,
    now: Timestamp,
    clock: Duration,
)
    requires
        cfg.canned@.contains_key(id),
    ensures
        ({
            let after = applied(
                st,
                cfg,
                CommandView::Canned { id, bg, fg, flash },
                now,
                clock,
            ).0;
            after.flash == started_flash(
                match flash {
                    Some(f) => f,
                    None => cfg.canned@[id].flash,
                },
                clock,
            )
        }),
{
}

/// The canned id names the message that the scene came from: an accepted `canned`
/// sets it, every other accepted command but a query takes it away.
pub proof fn law_canned_id_names_the_scene(
    st: StateView,
    cfg: Config,
    c: CommandView,
    now: Timestamp,
    clock: Duration,
)
    requires
        !is_query(c),
        applied(st, cfg, c, now, clock).1 is Ok,
    ensures
        applied(st, cfg, c, now, clock).0.canned_id == (match c {
            CommandView::Canned { id, .. } => Some(id),
            _ => None,
        }),
{
}

/// A countdown of seconds is a countdown to the instant that many seconds after it
/// was received, in every respect; so it survives a restart as that one does.
pub proof fn law_countdown_secs_is_countdown_to(
    st: StateView,
    cfg: Config,
    secs: u32,
    label: Option<Seq<char>>,
    bg: Option<Rgb>,
    fg: Option<Rgb>,
    now: Timestamp,
    clock: Duration,
)
    ensures
        applied(st, cfg, CommandView::CountdownSecs { secs, label, bg, fg }, now, clock) == applied(
            st,
            cfg,
            CommandView::CountdownTo { target: now.later(secs), label, bg, fg },
            now,
            clock,
        ),
{
}

/// A colour that a command does not give stays as it is, and changing colours keeps
/// the content.
pub proof fn law_omitted_colours_stay(
    st: StateView,
    cfg: Config,
    c: CommandView,
    now: Timestamp,
    clock: Duration,
)
    requires
        c is Show || c is Colour || c is CountdownTo || c is CountdownSecs,
    ensures
        ({
            let after = applied(st, cfg, c, now, clock).0.scene;
            let (bg, fg) = match c {
                CommandView::Show { bg, fg, .. } => (bg, fg),
                CommandView::Colour { bg, fg } => (bg, fg),
                CommandView::CountdownTo { bg, fg, .. } => (bg, fg),
                CommandView::CountdownSecs { bg, fg, .. } => (bg, fg),
                _ => (None, None),
            };
            &&& after.bg == or_colour(bg, st.scene.bg)
            &&& after.fg == or_colour(fg, st.scene.fg)
            &&& c is Colour ==> after.content == st.scene.content
        }),
{
}

/// The screen is only ever sent what differs from what it shows: looked at again
/// with nothing changed, it is sent nothing; and after a look it shows the current
/// spec.
pub proof fn law_screen_is_sent_changes_only(
    st: StateView,
    cfg: Config,
    now: Timestamp,
    clock: Duration,
)
    ensures
        ({
            let (after, sent) = refreshed(st, cfg, now, clock);
            let spec = current_spec(st, cfg, now, clock);
            &&& after.pushed == Some(spec)
            &&& sent is Some <==> st.pushed != Some(spec)
            &&& sent matches Some(s) ==> s == spec
            &&& refreshed(after, cfg, now, clock) == (after, None::<RenderSpecView>)
        }),
{
}

/// A spec counts as pushed only once it was sent: if sending it failed, the next look
/// with nothing changed offers it again.
pub proof fn law_failed_push_is_offered_again(
    st: StateView,
    cfg: Config,
    now: Timestamp,
    clock: Duration,
)
    ensures
        ({
            let (after, sent) = refreshed(st, cfg, now, clock);
            let unsent = StateView { pushed: st.pushed, ..after };
            &&& refreshed(unsent, cfg, now, clock) == (after, sent)
            &&& sent is None ==> unsent == after
        }),
{
}

/// Once a timed flash is over the screen settles on the scene's own colours, and the
/// flash is gone.
pub proof fn law_timed_flash_settles(
    st: StateView,
    cfg: Config,
    started: Duration,
    d: Duration,
    now: Timestamp,
    clock: Duration,
)
    requires
        st.flash == Some(RunningFlash { started, duration: Some(d) }),
        clock.nanos >= started.nanos + d.nanos,
    ensures
        ({
            let after = refreshed(st, cfg, now, clock).0;
            after.flash is None && after.pushed == Some(
                render::derived(st.scene, now, cfg, false),
            )
        }),
{
}

fn clone_last(l: &Option<LastCommand>) -> (r: Option<LastCommand>)
    ensures
        r == *l,
{
    match l {
        Some(l) => Some(l.clone()),
        None => None,
    }
}

} // verus!
