//! The `status` reply.

use vstd::prelude::*;

use crate::scene;
use crate::scene::{Content, ContentView, Rgb, Scene, SceneView};
use crate::text;
use crate::time::{Duration, Timestamp};

verus! {

/// When and how the last accepted command came.
#[derive(Debug, PartialEq, Eq)]
pub struct LastCommand {
    pub at: Timestamp,
    pub via: &'static str,
    pub from: Option<String>,
}

/// A last command by its texts.
pub struct LastCommandView {
    pub at: Timestamp,
    pub via: Seq<char>,
    pub from: Option<Seq<char>>,
}

impl View for LastCommand {
    type V = LastCommandView;

    open spec fn view(&self) -> LastCommandView {
        LastCommandView { at: self.at, via: self.via@, from: text::opt_text(self.from) }
    }
}

impl Clone for LastCommand {
    fn clone(&self) -> (r: LastCommand)
        ensures
            r == *self,
    {
        LastCommand { at: self.at, via: self.via, from: text::clone_opt(&self.from) }
    }
}

/// A last command, if any, by its texts.
pub open spec fn last_view(l: Option<LastCommand>) -> Option<LastCommandView> {
    match l {
        Some(l) => Some(l@),
        None => None,
    }
}

/// The flash as clients see it: how much longer it runs, or that it has no end.
#[derive(Debug, Clone, Copy, PartialEq, Eq)]
pub enum FlashStatus {
    Timed { remaining: Duration },
    Forever { infinite: bool },
}

/// Which build this is: the version, and the release it was built for. This is how
/// an operator tells which build a box actually runs.
#[derive(Debug, Clone, Copy, PartialEq, Eq)]
pub struct Release {
    pub version: &'static str,
    pub build: &'static str,
}

/// Content as clients see it: the derived `display` string beside what it is.
#[derive(Debug, PartialEq, Eq)]
pub enum ContentStatus {
    Text { text: String, display: String },
    Countdown { target: Timestamp, label: Option<String>, display: String },
}

/// Content as clients see it, by its texts.
pub enum ContentStatusView {
    Text { text: Seq<char>, display: Seq<char> },
    Countdown { target: Timestamp, label: Option<Seq<char>>, display: Seq<char> },
}

impl View for ContentStatus {
    type V = ContentStatusView;

    open spec fn view(&self) -> ContentStatusView {
        match *self {
            ContentStatus::Text { text, display } => ContentStatusView::Text {
                text: text@,
                display: display@,
            },
            ContentStatus::Countdown { target, label, display } => ContentStatusView::Countdown {
                target,
                label: text::opt_text(label),
                display: display@,
            },
        }
    }
}

/// The scene as clients see it.
#[derive(Debug, PartialEq, Eq)]
pub struct SceneStatus {
    pub bg: Rgb,
    pub fg: Rgb,
    pub content: ContentStatus,
}

/// The body of the `status` reply.
#[derive(Debug, PartialEq, Eq)]
pub struct StatusReport {
    pub ok: bool,
    pub scene: SceneStatus,
    pub canned_id: Option<String>,
    /// Absent when steady.
    pub flash: Option<FlashStatus>,
    pub uptime_secs: u64,
    pub version: &'static str,
    pub build: &'static str,
    pub last_command: Option<LastCommand>,
}

/// A status report by its texts.
pub struct StatusView {
    pub ok: bool,
    pub bg: Rgb,
    pub fg: Rgb,
    pub content: ContentStatusView,
    pub canned_id: Option<Seq<char>>,
    pub flash: Option<FlashStatus>,
    pub uptime_secs: u64,
    pub version: Seq<char>,
    pub build: Seq<char>,
    pub last_command: Option<LastCommandView>,
}

impl View for StatusReport {
    type V = StatusView;

    open spec fn view(&self) -> StatusView {
        StatusView {
            ok: self.ok,
            bg: self.scene.bg,
            fg: self.scene.fg,
            content: self.scene.content@,
            canned_id: text::opt_text(self.canned_id),
            flash: self.flash,
            uptime_secs: self.uptime_secs,
            version: self.version@,
            build: self.build@,
            last_command: last_view(self.last_command),
        }
    }
}

/// Content as clients see it at `now`.
pub open spec fn content_status(content: ContentView, now: Timestamp) -> ContentStatusView {
    let display = scene::displayed(content, now);
    match content {
        ContentView::Text { text } => ContentStatusView::Text { text, display },
        ContentView::Countdown { target, label } => ContentStatusView::Countdown {
            target,
            label,
            display,
        },
    }
}

/// What `status` answers.
pub open spec fn reported(
    s: SceneView,
    canned_id: Option<Seq<char>>,
    uptime_secs: u64,
    last_command: Option<LastCommandView>,
    now: Timestamp,
    flash: Option<FlashStatus>,
    release: Release,
) -> StatusView {
    StatusView {
        ok: true,
        bg: s.bg,
        fg: s.fg,
        content: content_status(s.content, now),
        canned_id,
        flash,
        uptime_secs,
        version: release.version@,
        build: release.build@,
        last_command,
    }
}

/// What `status` answers: the scene with its display string, and what runs it.
pub fn report(
    scene: &Scene,
    canned_id: Option<String>,
    uptime_secs: u64,
    last_command: Option<LastCommand>,
    now: Timestamp,
    flash: Option<FlashStatus>,
    release: Release,
) -> (r: StatusReport)
    ensures
        r@ == reported(
            scene@,
            text::opt_text(canned_id),
            uptime_secs,
            last_view(last_command),
            now,
            flash,
            release,
        ),
{
    let display = scene.display_string(now);
    let content = match &scene.content {
        Content::Text { text } => ContentStatus::Text { text: text.clone(), display },
        Content::Countdown { target, label } => ContentStatus::Countdown {
            target: *target,
            label: text::clone_opt(label),
            display,
        },
    };
    StatusReport {
        ok: true,
        scene: SceneStatus { bg: scene.bg, fg: scene.fg, content },
        canned_id,
        flash,
        uptime_secs,
        version: release.version,
        build: release.build,
        last_command,
    }
}

} // verus!
