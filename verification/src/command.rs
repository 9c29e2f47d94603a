//! The one command set all three transports (OSC, TCP, HTTP) normalise to.

use vstd::prelude::*;

use crate::osc::{ArgView, MessageView, OscArg, OscMessage};
use crate::scene;
use crate::scene::{Flash, Rgb};
use crate::seconds::Seconds;
use crate::text;
use crate::time;
use crate::time::Timestamp;

verus! {

#[derive(Debug, PartialEq, Eq)]
#[allow(inconsistent_fields)]
pub enum Command {
    Show { text: String, bg: Option<Rgb>, fg: Option<Rgb>, flash: Flash },
    Canned {
        id: String,
        bg: Option<Rgb>,
        fg: Option<Rgb>,
        /// None defers to the canned message's own `flash` config.
        flash: Option<Flash>,
    },
    Colour { bg: Option<Rgb>, fg: Option<Rgb> },
    CountdownTo { target: Timestamp, label: Option<String>, bg: Option<Rgb>, fg: Option<Rgb> },
    CountdownSecs { secs: u32, label: Option<String>, bg: Option<Rgb>, fg: Option<Rgb> },
    Clear,
    Status,
    History,
}

/// A command by its texts.
#[allow(inconsistent_fields)]
pub enum CommandView {
    Show { text: Seq<char>, bg: Option<Rgb>, fg: Option<Rgb>, flash: Flash },
    Canned { id: Seq<char>, bg: Option<Rgb>, fg: Option<Rgb>, flash: Option<Flash> },
    Colour { bg: Option<Rgb>, fg: Option<Rgb> },
    CountdownTo { target: Timestamp, label: Option<Seq<char>>, bg: Option<Rgb>, fg: Option<Rgb> },
    CountdownSecs { secs: u32, label: Option<Seq<char>>, bg: Option<Rgb>, fg: Option<Rgb> },
    Clear,
    Status,
    History,
}

impl View for Command {
    type V = CommandView;

    open spec fn view(&self) -> CommandView {
        match *self {
            Command::Show { text, bg, fg, flash } => CommandView::Show { text: text@, bg, fg, flash },
            Command::Canned { id, bg, fg, flash } => CommandView::Canned { id: id@, bg, fg, flash },
            Command::Colour { bg, fg } => CommandView::Colour { bg, fg },
            Command::CountdownTo { target, label, bg, fg } => CommandView::CountdownTo {
                target,
                label: text::opt_text(label),
                bg,
                fg,
            },
            Command::CountdownSecs { secs, label, bg, fg } => CommandView::CountdownSecs {
                secs,
                label: text::opt_text(label),
                bg,
                fg,
            },
            Command::Clear => CommandView::Clear,
            Command::Status => CommandView::Status,
            Command::History => CommandView::History,
        }
    }
}

#[derive(Debug, PartialEq, Eq)]
pub enum CommandError {
    UnknownAddress(String),
    WrongArgs { addr: String, expected: &'static str },
    BadColour(String),
    BadTimestamp(String),
    UnknownCanned(String),
    BadFlash(String),
    BadJson(String),
    LineTooLong,
    InvalidUtf8,
    QueryNotSupported(&'static str),
    ShuttingDown,
}

/// An error by its texts.
pub enum CommandErrorView {
    UnknownAddress(Seq<char>),
    WrongArgs { addr: Seq<char>, expected: Seq<char> },
    BadColour(Seq<char>),
    BadTimestamp(Seq<char>),
    UnknownCanned(Seq<char>),
    BadFlash(Seq<char>),
    BadJson(Seq<char>),
    LineTooLong,
    InvalidUtf8,
    QueryNotSupported(Seq<char>),
    ShuttingDown,
}

impl View for CommandError {
    type V = CommandErrorView;

    open spec fn view(&self) -> CommandErrorView {
        match *self {
            CommandError::UnknownAddress(a) => CommandErrorView::UnknownAddress(a@),
            CommandError::WrongArgs { addr, expected } => CommandErrorView::WrongArgs {
                addr: addr@,
                expected: expected@,
            },
            CommandError::BadColour(m) => CommandErrorView::BadColour(m@),
            CommandError::BadTimestamp(t) => CommandErrorView::BadTimestamp(t@),
            CommandError::UnknownCanned(id) => CommandErrorView::UnknownCanned(id@),
            CommandError::BadFlash(m) => CommandErrorView::BadFlash(m@),
            CommandError::BadJson(m) => CommandErrorView::BadJson(m@),
            CommandError::LineTooLong => CommandErrorView::LineTooLong,
            CommandError::InvalidUtf8 => CommandErrorView::InvalidUtf8,
            CommandError::QueryNotSupported(q) => CommandErrorView::QueryNotSupported(q@),
            CommandError::ShuttingDown => CommandErrorView::ShuttingDown,
        }
    }
}

impl Clone for CommandError {
    fn clone(&self) -> (r: CommandError)
        ensures
            r == *self,
    {
        match self {
            CommandError::UnknownAddress(a) => CommandError::UnknownAddress(a.clone()),
            CommandError::WrongArgs { addr, expected } => CommandError::WrongArgs {
                addr: addr.clone(),
                expected,
            },
            CommandError::BadColour(m) => CommandError::BadColour(m.clone()),
            CommandError::BadTimestamp(t) => CommandError::BadTimestamp(t.clone()),
            CommandError::UnknownCanned(id) => CommandError::UnknownCanned(id.clone()),
            CommandError::BadFlash(m) => CommandError::BadFlash(m.clone()),
            CommandError::BadJson(m) => CommandError::BadJson(m.clone()),
            CommandError::LineTooLong => CommandError::LineTooLong,
            CommandError::InvalidUtf8 => CommandError::InvalidUtf8,
            CommandError::QueryNotSupported(q) => CommandError::QueryNotSupported(q),
            CommandError::ShuttingDown => CommandError::ShuttingDown,
        }
    }
}

/// What a client is told of an error.
pub open spec fn complaint(e: CommandErrorView) -> Seq<char> {
    match e {
        CommandErrorView::UnknownAddress(a) => "unknown address "@ + a,
        CommandErrorView::WrongArgs { addr, expected } => addr + ": expected args "@ + expected,
        CommandErrorView::BadColour(m) => m,
        CommandErrorView::BadTimestamp(t) => "bad timestamp "@ + text::debug_quoted(t)
            + ": expected ISO 8601, e.g. 2026-09-08T19:30:00Z"@,
        CommandErrorView::UnknownCanned(id) => "unknown canned id "@ + text::debug_quoted(id),
        CommandErrorView::BadFlash(m) => m,
        CommandErrorView::BadJson(m) => "invalid JSON: "@ + m,
        CommandErrorView::LineTooLong => "line exceeds 64 KiB"@,
        CommandErrorView::InvalidUtf8 => "invalid UTF-8"@,
        CommandErrorView::QueryNotSupported(q) => q + " is not available over OSC"@,
        CommandErrorView::ShuttingDown => "shutting down"@,
    }
}

impl CommandError {
    /// What a client is told.
    pub fn to_string(&self) -> (r: String)
        ensures
            r@ == complaint(self@),
    {
        match self {
            CommandError::UnknownAddress(a) => {
                let mut s = "unknown address ".to_owned();
                s.append(a.as_str());
                s
            },
            CommandError::WrongArgs { addr, expected } => {
                let mut s = addr.clone();
                s.append(": expected args ");
                s.append(expected);
                s
            },
            CommandError::BadColour(m) => m.clone(),
            CommandError::BadTimestamp(t) => {
                let mut s = "bad timestamp ".to_owned();
                let quoted = text::quote_debug(t.as_str());
                s.append(quoted.as_str());
                s.append(": expected ISO 8601, e.g. 2026-09-08T19:30:00Z");
                s
            },
            CommandError::UnknownCanned(id) => {
                let mut s = "unknown canned id ".to_owned();
                let quoted = text::quote_debug(id.as_str());
                s.append(quoted.as_str());
                s
            },
            CommandError::BadFlash(m) => m.clone(),
            CommandError::BadJson(m) => {
                let mut s = "invalid JSON: ".to_owned();
                s.append(m.as_str());
                s
            },
            CommandError::LineTooLong => "line exceeds 64 KiB".to_owned(),
            CommandError::InvalidUtf8 => "invalid UTF-8".to_owned(),
            CommandError::QueryNotSupported(q) => {
                let mut s = (*q).to_owned();
                s.append(" is not available over OSC");
                s
            },
            CommandError::ShuttingDown => "shutting down".to_owned(),
        }
    }
}

/// A parse result by its texts.
pub open spec fn parsed(r: Result<Command, CommandError>) -> Result<CommandView, CommandErrorView> {
    match r {
        Ok(c) => Ok(c@),
        Err(e) => Err(e@),
    }
}

/// What follows the leading string of `show` and `canned`, so far.
pub struct Tail {
    pub bg: Option<Rgb>,
    pub fg: Option<Rgb>,
    pub flash: Option<Flash>,
}

/// A colour argument read.
pub open spec fn colour_arg(s: Seq<char>) -> Result<Rgb, CommandErrorView> {
    if scene::spells_colour(s) {
        Ok(scene::colour_in(s))
    } else {
        Err(CommandErrorView::BadColour(scene::bad_colour(s)))
    }
}

/// A flash given in seconds read.
pub open spec fn seconds_arg(s: crate::seconds::SecondsView) -> Result<Flash, CommandErrorView> {
    match scene::seconds_flash(s) {
        Ok(f) => Ok(f),
        Err(m) => Err(CommandErrorView::BadFlash(m)),
    }
}

/// The tail after one more argument: strings are the background, then the
/// foreground; one number or boolean is the flash; nothing else fits.
pub open spec fn tail_with(t: Tail, a: ArgView, wrong: CommandErrorView) -> Result<
    Tail,
    CommandErrorView,
> {
    match a {
        ArgView::String(s) => if t.bg is None {
            match colour_arg(s) {
                Ok(c) => Ok(Tail { bg: Some(c), ..t }),
                Err(e) => Err(e),
            }
        } else if t.fg is None {
            match colour_arg(s) {
                Ok(c) => Ok(Tail { fg: Some(c), ..t }),
                Err(e) => Err(e),
            }
        } else {
            Err(wrong)
        },
        ArgView::Int(n) => if t.flash is None {
            Ok(Tail { flash: Some(scene::switched(n != 0)), ..t })
        } else {
            Err(wrong)
        },
        ArgView::Long(n) => if t.flash is None {
            Ok(Tail { flash: Some(scene::switched(n != 0)), ..t })
        } else {
            Err(wrong)
        },
        ArgView::Bool(b) => if t.flash is None {
            Ok(Tail { flash: Some(scene::switched(b)), ..t })
        } else {
            Err(wrong)
        },
        ArgView::Float { secs, .. } | ArgView::Double { secs, .. } => if t.flash is None {
            match seconds_arg(secs) {
                Ok(f) => Ok(Tail { flash: Some(f), ..t }),
                Err(e) => Err(e),
            }
        } else {
            Err(wrong)
        },
        ArgView::Other(_) => Err(wrong),
    }
}

/// The tail that `args` make, the first misfit deciding.
pub open spec fn tail_of(args: Seq<ArgView>, wrong: CommandErrorView) -> Result<
    Tail,
    CommandErrorView,
>
    decreases args.len(),
{
    if args.len() == 0 {
        Ok(Tail { bg: None, fg: None, flash: None })
    } else {
        match tail_of(args.drop_last(), wrong) {
            Err(e) => Err(e),
            Ok(t) => tail_with(t, args.last(), wrong),
        }
    }
}

/// An optional last string: absent, a string, or a misfit.
pub open spec fn label_arg(args: Seq<ArgView>, wrong: CommandErrorView) -> Result<
    Option<Seq<char>>,
    CommandErrorView,
> {
    if args.len() <= 1 {
        Ok(None)
    } else {
        match args[1] {
            ArgView::String(s) => if args.len() > 2 {
                Err(wrong)
            } else {
                Ok(Some(s))
            },
            _ => Err(wrong),
        }
    }
}

/// The command that a message asks for, per address:
///
/// | Address | Args |
/// |---|---|
/// | `/placard/show` | `s text [s bg] [s fg] [i flash \\| f seconds]` |
/// | `/placard/canned` | `s id [s bg] [s fg] [i flash \\| f seconds]` |
/// | `/placard/colour` | `s bg [s fg]` |
/// | `/placard/countdown/to` | `s iso8601 [s label]` |
/// | `/placard/countdown/secs` | `i secs [s label]` |
/// | `/placard/clear` | none |
pub open spec fn osc_command(m: MessageView) -> Result<CommandView, CommandErrorView> {
    let wrong = |expected: Seq<char>| CommandErrorView::WrongArgs { addr: m.addr, expected };
    if m.addr == "/placard/show"@ {
        show_command(m.args, wrong("s text [s bg] [s fg] [i flash | f seconds]"@))
    } else if m.addr == "/placard/canned"@ {
        canned_command(m.args, wrong("s id [s bg] [s fg] [i flash | f seconds]"@))
    } else if m.addr == "/placard/colour"@ {
        colour_command(m.args, wrong("s bg [s fg]"@))
    } else if m.addr == "/placard/countdown/to"@ {
        to_command(m.args, wrong("s iso8601 [s label]"@))
    } else if m.addr == "/placard/countdown/secs"@ {
        secs_command(m.args, wrong("i secs [s label]"@))
    } else if m.addr == "/placard/clear"@ {
        if m.args.len() == 0 {
            Ok(CommandView::Clear)
        } else {
            Err(wrong("no args"@))
        }
    } else if m.addr == "/placard/status"@ {
        Err(CommandErrorView::QueryNotSupported("status"@))
    } else if m.addr == "/placard/history"@ {
        Err(CommandErrorView::QueryNotSupported("history"@))
    } else {
        Err(CommandErrorView::UnknownAddress(m.addr))
    }
}

pub open spec fn show_command(args: Seq<ArgView>, wrong: CommandErrorView) -> Result<
    CommandView,
    CommandErrorView,
> {
    if args.len() > 0 && args[0] is String {
        match tail_of(args.skip(1), wrong) {
            Ok(t) => Ok(
                CommandView::Show {
                    text: args[0]->String_0,
                    bg: t.bg,
                    fg: t.fg,
                    flash: match t.flash {
                        Some(f) => f,
                        None => Flash::Off,
                    },
                },
            ),
            Err(e) => Err(e),
        }
    } else {
        Err(wrong)
    }
}

pub open spec fn canned_command(args: Seq<ArgView>, wrong: CommandErrorView) -> Result<
    CommandView,
    CommandErrorView,
> {
    if args.len() > 0 && args[0] is String {
        match tail_of(args.skip(1), wrong) {
            Ok(t) => Ok(
                CommandView::Canned { id: args[0]->String_0, bg: t.bg, fg: t.fg, flash: t.flash },
            ),
            Err(e) => Err(e),
        }
    } else {
        Err(wrong)
    }
}

pub open spec fn colour_command(args: Seq<ArgView>, wrong: CommandErrorView) -> Result<
    CommandView,
    CommandErrorView,
> {
    if args.len() > 0 && args[0] is String {
        match colour_arg(args[0]->String_0) {
            Err(e) => Err(e),
            Ok(bg) => if args.len() == 1 {
                Ok(CommandView::Colour { bg: Some(bg), fg: None })
            } else if args[1] is String {
                match colour_arg(args[1]->String_0) {
                    Err(e) => Err(e),
                    Ok(fg) => if args.len() == 2 {
                        Ok(CommandView::Colour { bg: Some(bg), fg: Some(fg) })
                    } else {
                        Err(wrong)
                    },
                }
            } else {
                Err(wrong)
            },
        }
    } else {
        Err(wrong)
    }
}

pub open spec fn to_command(args: Seq<ArgView>, wrong: CommandErrorView) -> Result<
    CommandView,
    CommandErrorView,
> {
    if args.len() > 0 && args[0] is String {
        let raw = args[0]->String_0;
        if !time::iso_names(raw) {
            Err(CommandErrorView::BadTimestamp(raw))
        } else {
            match label_arg(args, wrong) {
                Err(e) => Err(e),
                Ok(label) => Ok(
                    CommandView::CountdownTo {
                        target: time::iso_timestamp(raw),
                        label,
                        bg: None,
                        fg: None,
                    },
                ),
            }
        }
    } else {
        Err(wrong)
    }
}

pub open spec fn secs_command(args: Seq<ArgView>, wrong: CommandErrorView) -> Result<
    CommandView,
    CommandErrorView,
> {
    if args.len() > 0 && args[0] is Int && args[0]->Int_0 >= 0 {
        match label_arg(args, wrong) {
            Err(e) => Err(e),
            Ok(label) => Ok(
                CommandView::CountdownSecs { secs: args[0]->Int_0 as u32, label, bg: None, fg: None },
            ),
        }
    } else {
        Err(wrong)
    }
}

/// Map an OSC message onto `Command`.
pub fn parse_osc(msg: &OscMessage) -> (r: Result<Command, CommandError>)
    ensures
        parsed(r) == osc_command(msg@),
{
    let args = OscArgs::new(msg.addr.as_str(), &msg.args);
    let addr = msg.addr.as_str();
    if text::same_text(addr, "/placard/show") {
        args.show("s text [s bg] [s fg] [i flash | f seconds]")
    } else if text::same_text(addr, "/placard/canned") {
        args.canned("s id [s bg] [s fg] [i flash | f seconds]")
    } else if text::same_text(addr, "/placard/colour") {
        args.colour("s bg [s fg]")
    } else if text::same_text(addr, "/placard/countdown/to") {
        args.countdown_to("s iso8601 [s label]")
    } else if text::same_text(addr, "/placard/countdown/secs") {
        args.countdown_secs("i secs [s label]")
    } else if text::same_text(addr, "/placard/clear") {
        match args.no_more(0, "no args") {
            Ok(_) => Ok(Command::Clear),
            Err(e) => Err(e),
        }
    } else if text::same_text(addr, "/placard/status") {
        Err(CommandError::QueryNotSupported("status"))
    } else if text::same_text(addr, "/placard/history") {
        Err(CommandError::QueryNotSupported("history"))
    } else {
        Err(CommandError::UnknownAddress(addr.to_owned()))
    }
}

/// A result by its error's texts.
pub open spec fn erred<T>(r: Result<T, CommandError>) -> Result<T, CommandErrorView> {
    match r {
        Ok(t) => Ok(t),
        Err(e) => Err(e@),
    }
}

/// A colour argument read.
pub fn parse_colour(s: &str) -> (r: Result<Rgb, CommandError>)
    ensures
        erred(r) == colour_arg(s@),
{
    match Rgb::parse(s) {
        Ok(c) => Ok(c),
        Err(m) => Err(CommandError::BadColour(m)),
    }
}

fn parse_seconds(s: &Seconds) -> (r: Result<Flash, CommandError>)
    ensures
        erred(r) == seconds_arg(s@),
{
    match Flash::from_secs(s) {
        Ok(f) => Ok(f),
        Err(m) => Err(CommandError::BadFlash(m)),
    }
}

/// The arguments of a message to `addr`, while they are read.
struct OscArgs<'a> {
    addr: &'a str,
    args: &'a Vec<OscArg>,
}

impl<'a> OscArgs<'a> {
    spec fn all(self) -> Seq<ArgView> {
        crate::osc::arg_views(self.args@)
    }

    spec fn misfit(self, expected: Seq<char>) -> CommandErrorView {
        CommandErrorView::WrongArgs { addr: self.addr@, expected }
    }

    fn new(addr: &'a str, args: &'a Vec<OscArg>) -> (r: OscArgs<'a>)
        ensures
            r.addr == addr,
            r.args == args,
    {
        OscArgs { addr, args }
    }

    fn wrong(&self, expected: &'static str) -> (e: CommandError)
        ensures
            e@ == self.misfit(expected@),
    {
        CommandError::WrongArgs { addr: self.addr.to_owned(), expected }
    }

    fn string(&self, i: usize, expected: &'static str) -> (r: Result<String, CommandError>)
        ensures
            match r {
                Ok(s) => i < self.all().len() && self.all()[i as int] == ArgView::String(s@),
                Err(e) => e@ == self.misfit(expected@) && !(i < self.all().len()
                    && self.all()[i as int] is String),
            },
    {
        if i < self.args.len() {
            match &self.args[i] {
                OscArg::String(s) => Ok(s.clone()),
                _ => Err(self.wrong(expected)),
            }
        } else {
            Err(self.wrong(expected))
        }
    }

    fn optional_string(&self, i: usize, expected: &'static str) -> (r: Result<
        Option<String>,
        CommandError,
    >)
        ensures
            match r {
                Ok(Some(s)) => i < self.all().len() && self.all()[i as int] == ArgView::String(s@),
                Ok(None) => i >= self.all().len(),
                Err(e) => e@ == self.misfit(expected@) && i < self.all().len()
                    && !(self.all()[i as int] is String),
            },
    {
        if i < self.args.len() {
            match &self.args[i] {
                OscArg::String(s) => Ok(Some(s.clone())),
                _ => Err(self.wrong(expected)),
            }
        } else {
            Ok(None)
        }
    }

    fn whole(&self, i: usize, expected: &'static str) -> (r: Result<i32, CommandError>)
        ensures
            match r {
                Ok(n) => i < self.all().len() && self.all()[i as int] == ArgView::Int(n),
                Err(e) => e@ == self.misfit(expected@) && !(i < self.all().len()
                    && self.all()[i as int] is Int),
            },
    {
        if i < self.args.len() {
            match &self.args[i] {
                OscArg::Int(n) => Ok(*n),
                _ => Err(self.wrong(expected)),
            }
        } else {
            Err(self.wrong(expected))
        }
    }

    fn no_more(&self, max: usize, expected: &'static str) -> (r: Result<(), CommandError>)
        ensures
            match r {
                Ok(_) => self.all().len() <= max,
                Err(e) => e@ == self.misfit(expected@) && self.all().len() > max,
            },
    {
        if self.args.len() > max {
            Err(self.wrong(expected))
        } else {
            Ok(())
        }
    }

    /// The `s text [s bg] [s fg] [i flash | f seconds]` shape shared by show
    /// and canned. After the leading string, remaining strings are colours in
    /// bg-then-fg order and a single numeric argument anywhere is the flash,
    /// so a cue can flash without padding in colours it doesn't want to
    /// change. OSC has no tables, so the type carries the meaning: an int (or
    /// OSC true/false) is the boolean form, a float is seconds with negative
    /// meaning no end.
    fn string_then_colours_and_flash(&self, expected: &'static str) -> (r: Result<
        (String, Tail),
        CommandError,
    >)
        ensures
            match r {
                Ok((s, t)) => {
                    &&& self.all().len() > 0
                    &&& self.all()[0] == ArgView::String(s@)
                    &&& tail_of(self.all().skip(1), self.misfit(expected@)) == Ok::<
                        Tail,
                        CommandErrorView,
                    >(t)
                },
                Err(e) => if self.all().len() > 0 && self.all()[0] is String {
                    tail_of(self.all().skip(1), self.misfit(expected@)) == Err::<
                        Tail,
                        CommandErrorView,
                    >(e@)
                } else {
                    e@ == self.misfit(expected@)
                },
            },
    {
        let text = self.string(0, expected)?;
        let ghost rest = self.all().skip(1);
        let ghost wrong = self.misfit(expected@);
        let mut tail = Tail { bg: None, fg: None, flash: None };
        assert(rest.take(0) =~= Seq::<ArgView>::empty());
        for i in 1..self.args.len()
            invariant
                self.args.len() >= 1,
                self.all()[0] is String,
                rest == self.all().skip(1),
                wrong == self.misfit(expected@),
                tail_of(rest.take(i - 1), wrong) == Ok::<Tail, CommandErrorView>(tail),
        {
            proof {
                assert(rest[i - 1] == self.args@[i as int]@);
                assert(rest.take(i as int).drop_last() =~= rest.take(i - 1));
                assert(rest.take(i as int).last() == rest[i - 1]);
            }
            match self.step(tail, &self.args[i], expected) {
                Ok(t) => {
                    tail = t;
                },
                Err(e) => {
                    proof {
                        lemma_tail_error_stays(rest, i as int, wrong);
                    }
                    return Err(e);
                },
            }
        }
        proof {
            assert(rest.take(self.args.len() - 1) =~= rest);
        }
        Ok((text, tail))
    }

    fn step(&self, t: Tail, arg: &OscArg, expected: &'static str) -> (r: Result<Tail, CommandError>)
        ensures
            erred(r) == tail_with(t, arg@, self.misfit(expected@)),
    {
        match arg {
            OscArg::String(s) => if t.bg.is_none() {
                match parse_colour(s.as_str()) {
                    Ok(c) => Ok(Tail { bg: Some(c), fg: t.fg, flash: t.flash }),
                    Err(e) => Err(e),
                }
            } else if t.fg.is_none() {
                match parse_colour(s.as_str()) {
                    Ok(c) => Ok(Tail { bg: t.bg, fg: Some(c), flash: t.flash }),
                    Err(e) => Err(e),
                }
            } else {
                Err(self.wrong(expected))
            },
            OscArg::Int(n) => self.flash(t, Ok(Flash::from_bool(*n != 0)), expected),
            OscArg::Long(n) => self.flash(t, Ok(Flash::from_bool(*n != 0)), expected),
            OscArg::Bool(b) => self.flash(t, Ok(Flash::from_bool(*b)), expected),
            OscArg::Float { secs, .. } => self.flash(t, parse_seconds(secs), expected),
            OscArg::Double { secs, .. } => self.flash(t, parse_seconds(secs), expected),
            OscArg::Other(_) => Err(self.wrong(expected)),
        }
    }

    fn flash(&self, t: Tail, flash: Result<Flash, CommandError>, expected: &'static str) -> (r: Result<
        Tail,
        CommandError,
    >)
        ensures
            erred(r) == (if t.flash is Some {
                Err(self.misfit(expected@))
            } else {
                match erred(flash) {
                    Ok(f) => Ok(Tail { flash: Some(f), ..t }),
                    Err(e) => Err(e),
                }
            }),
    {
        if t.flash.is_some() {
            return Err(self.wrong(expected));
        }
        match flash {
            Ok(f) => Ok(Tail { bg: t.bg, fg: t.fg, flash: Some(f) }),
            Err(e) => Err(e),
        }
    }

    fn show(&self, expected: &'static str) -> (r: Result<Command, CommandError>)
        ensures
            parsed(r) == show_command(self.all(), self.misfit(expected@)),
    {
        let (text, t) = self.string_then_colours_and_flash(expected)?;
        let flash = match t.flash {
            Some(f) => f,
            None => Flash::Off,
        };
        Ok(Command::Show { text, bg: t.bg, fg: t.fg, flash })
    }

    fn canned(&self, expected: &'static str) -> (r: Result<Command, CommandError>)
        ensures
            parsed(r) == canned_command(self.all(), self.misfit(expected@)),
    {
        let (id, t) = self.string_then_colours_and_flash(expected)?;
        Ok(Command::Canned { id, bg: t.bg, fg: t.fg, flash: t.flash })
    }

    fn colour(&self, expected: &'static str) -> (r: Result<Command, CommandError>)
        ensures
            parsed(r) == colour_command(self.all(), self.misfit(expected@)),
    {
        let first = self.string(0, expected)?;
        let bg = parse_colour(first.as_str())?;
        let fg = match self.optional_string(1, expected)? {
            Some(s) => Some(parse_colour(s.as_str())?),
            None => None,
        };
        self.no_more(2, expected)?;
        Ok(Command::Colour { bg: Some(bg), fg })
    }

    fn label(&self, expected: &'static str) -> (r: Result<Option<String>, CommandError>)
        requires
            self.all().len() > 0,
        ensures
            match r {
                Ok(l) => label_arg(self.all(), self.misfit(expected@)) == Ok::<
                    Option<Seq<char>>,
                    CommandErrorView,
                >(text::opt_text(l)),
                Err(e) => label_arg(self.all(), self.misfit(expected@)) == Err::<
                    Option<Seq<char>>,
                    CommandErrorView,
                >(e@),
            },
    {
        let label = self.optional_string(1, expected)?;
        self.no_more(2, expected)?;
        Ok(label)
    }

    fn countdown_to(&self, expected: &'static str) -> (r: Result<Command, CommandError>)
        ensures
            parsed(r) == to_command(self.all(), self.misfit(expected@)),
    {
        let raw = self.string(0, expected)?;
        match time::parse_iso(raw.as_str()) {
            Some(target) => {
                let label = self.label(expected)?;
                Ok(Command::CountdownTo { target, label, bg: None, fg: None })
            },
            None => Err(CommandError::BadTimestamp(raw)),
        }
    }

    fn countdown_secs(&self, expected: &'static str) -> (r: Result<Command, CommandError>)
        ensures
            parsed(r) == secs_command(self.all(), self.misfit(expected@)),
    {
        let secs = self.whole(0, expected)?;
        if secs < 0 {
            return Err(self.wrong(expected));
        }
        let label = self.label(expected)?;
        Ok(Command::CountdownSecs { secs: secs as u32, label, bg: None, fg: None })
    }
}

/// Whether every one of `args` is a string.
pub open spec fn all_strings(args: Seq<ArgView>) -> bool {
    forall|i: int| 0 <= i < args.len() ==> (#[trigger] args[i]) is String
}

proof fn lemma_strings_do_not_flash(args: Seq<ArgView>, wrong: CommandErrorView)
    requires
        all_strings(args),
        tail_of(args, wrong) is Ok,
    ensures
        tail_of(args, wrong)->Ok_0.flash is None,
    decreases args.len(),
{
    if args.len() > 0 {
        let before = args.drop_last();
        assert forall|i: int| 0 <= i < before.len() implies (#[trigger] before[i]) is String by {
            assert(before[i] == args[i]);
        }
        assert(args[args.len() - 1] is String);
        lemma_strings_do_not_flash(before, wrong);
    }
}

/// Among the colours of `show` and `canned`, the flash may stand anywhere: wherever
/// it stands, the command that comes out is the one with the flash last.
pub proof fn law_flash_may_stand_anywhere(
    colours: Seq<ArgView>,
    flash: ArgView,
    at: int,
    wrong: CommandErrorView,
)
    requires
        all_strings(colours),
        !(flash is String),
        tail_of(colours.push(flash), wrong) is Ok,
        0 <= at <= colours.len(),
    ensures
        tail_of(colours.insert(at, flash), wrong) == tail_of(colours.push(flash), wrong),
    decreases colours.len(),
{
    assert(colours.push(flash).drop_last() =~= colours);
    assert(colours.push(flash).last() == flash);
    if at == colours.len() {
        assert(colours.insert(at, flash) =~= colours.push(flash));
    } else {
        let before = colours.drop_last();
        let last = colours.last();
        assert forall|i: int| 0 <= i < before.len() implies (#[trigger] before[i]) is String by {
            assert(before[i] == colours[i]);
        }
        assert(colours[colours.len() - 1] is String);
        assert(tail_of(colours, wrong) is Ok);
        assert(tail_of(before, wrong) is Ok);
        lemma_strings_do_not_flash(before, wrong);
        lemma_strings_do_not_flash(colours, wrong);
        assert(before.push(flash).drop_last() =~= before);
        assert(before.push(flash).last() == flash);
        assert(tail_of(before.push(flash), wrong) is Ok);
        law_flash_may_stand_anywhere(before, flash, at, wrong);
        let moved = colours.insert(at, flash);
        assert(moved.drop_last() =~= before.insert(at, flash));
        assert(moved.last() == last);
    }
}

/// The flash that an argument asks for, if it is one that can.
pub open spec fn asked_flash(a: ArgView) -> Option<Flash> {
    match a {
        ArgView::Int(n) => Some(scene::switched(n != 0)),
        ArgView::Long(n) => Some(scene::switched(n != 0)),
        ArgView::Bool(b) => Some(scene::switched(b)),
        ArgView::Float { secs, .. } | ArgView::Double { secs, .. } => match scene::seconds_flash(
            secs,
        ) {
            Ok(f) => Some(f),
            Err(_) => None,
        },
        ArgView::String(_) | ArgView::Other(_) => None,
    }
}

/// Texts as string arguments.
pub open spec fn string_args(texts: Seq<Seq<char>>) -> Seq<ArgView> {
    texts.map_values(|s: Seq<char>| ArgView::String(s))
}

/// The colour that the text at `i` spells, if there is a text at `i`.
pub open spec fn colour_at(texts: Seq<Seq<char>>, i: int) -> Option<Rgb> {
    if 0 <= i < texts.len() {
        Some(scene::colour_in(texts[i]))
    } else {
        None
    }
}

proof fn lemma_tail_of_colours(colours: Seq<Seq<char>>, wrong: CommandErrorView)
    requires
        colours.len() <= 2,
        forall|i: int| 0 <= i < colours.len() ==> scene::spells_colour(#[trigger] colours[i]),
    ensures
        tail_of(string_args(colours), wrong) == Ok::<Tail, CommandErrorView>(
            Tail { bg: colour_at(colours, 0), fg: colour_at(colours, 1), flash: None },
        ),
    decreases colours.len(),
{
    let args = string_args(colours);
    if colours.len() > 0 {
        let before = colours.drop_last();
        assert forall|i: int| 0 <= i < before.len() implies scene::spells_colour(
            #[trigger] before[i],
        ) by {
            assert(before[i] == colours[i]);
        }
        lemma_tail_of_colours(before, wrong);
        assert(args.drop_last() =~= string_args(before));
        assert(args.last() == ArgView::String(colours.last()));
        assert(scene::spells_colour(colours[colours.len() - 1]));
    }
}

proof fn lemma_tail_of_colours_and_flash(
    colours: Seq<Seq<char>>,
    flash: ArgView,
    at: int,
    wrong: CommandErrorView,
)
    requires
        colours.len() <= 2,
        forall|i: int| 0 <= i < colours.len() ==> scene::spells_colour(#[trigger] colours[i]),
        asked_flash(flash) is Some,
        0 <= at <= colours.len(),
    ensures
        tail_of(string_args(colours).insert(at, flash), wrong) == Ok::<Tail, CommandErrorView>(
            Tail {
                bg: colour_at(colours, 0),
                fg: colour_at(colours, 1),
                flash: asked_flash(flash),
            },
        ),
{
    let strings = string_args(colours);
    assert(all_strings(strings));
    lemma_tail_of_colours(colours, wrong);
    assert(strings.push(flash).drop_last() =~= strings);
    assert(strings.push(flash).last() == flash);
    law_flash_may_stand_anywhere(strings, flash, at, wrong);
}

#[verifier::spinoff_prover]
proof fn lemma_show_reads(leading: Seq<char>, rest: Seq<ArgView>, tail: Tail)
    requires
        forall|wrong: CommandErrorView| #[trigger]
            tail_of(rest, wrong) == Ok::<Tail, CommandErrorView>(tail),
    ensures
        osc_command(
            MessageView { addr: "/placard/show"@, args: seq![ArgView::String(leading)] + rest },
        ) == Ok::<CommandView, CommandErrorView>(
            CommandView::Show {
                text: leading,
                bg: tail.bg,
                fg: tail.fg,
                flash: match tail.flash {
                    Some(f) => f,
                    None => Flash::Off,
                },
            },
        ),
{
    assert((seq![ArgView::String(leading)] + rest).skip(1) =~= rest);
}

#[verifier::spinoff_prover]
proof fn lemma_canned_reads(leading: Seq<char>, rest: Seq<ArgView>, tail: Tail)
    requires
        forall|wrong: CommandErrorView| #[trigger]
            tail_of(rest, wrong) == Ok::<Tail, CommandErrorView>(tail),
    ensures
        osc_command(
            MessageView { addr: "/placard/canned"@, args: seq![ArgView::String(leading)] + rest },
        ) == Ok::<CommandView, CommandErrorView>(
            CommandView::Canned { id: leading, bg: tail.bg, fg: tail.fg, flash: tail.flash },
        ),
{
    reveal_strlit("/placard/show");
    reveal_strlit("/placard/canned");
    assert("/placard/show"@.len() != "/placard/canned"@.len());
    assert((seq![ArgView::String(leading)] + rest).skip(1) =~= rest);
}

/// After the leading string of `show` and `canned`, the colours are background and
/// foreground in that order and the one flash argument may stand anywhere among
/// them: the command is the same for every place, and without a flash argument none
/// is asked for.
#[verifier::spinoff_prover]
pub proof fn law_tail_reads_the_same_wherever_the_flash_stands(
    leading: Seq<char>,
    colours: Seq<Seq<char>>,
    flash: ArgView,
    at: int,
)
    requires
        colours.len() <= 2,
        forall|i: int| 0 <= i < colours.len() ==> scene::spells_colour(#[trigger] colours[i]),
        asked_flash(flash) is Some,
        0 <= at <= colours.len(),
    ensures
        ({
            let first = seq![ArgView::String(leading)];
            let steady = first + string_args(colours);
            let flashing = first + string_args(colours).insert(at, flash);
            let bg = colour_at(colours, 0);
            let fg = colour_at(colours, 1);
            let f = asked_flash(flash)->0;
            let show = "/placard/show"@;
            let canned = "/placard/canned"@;
            &&& osc_command(MessageView { addr: show, args: flashing }) == Ok::<
                CommandView,
                CommandErrorView,
            >(CommandView::Show { text: leading, bg, fg, flash: f })
            &&& osc_command(MessageView { addr: canned, args: flashing }) == Ok::<
                CommandView,
                CommandErrorView,
            >(CommandView::Canned { id: leading, bg, fg, flash: Some(f) })
            &&& osc_command(MessageView { addr: show, args: steady }) == Ok::<
                CommandView,
                CommandErrorView,
            >(CommandView::Show { text: leading, bg, fg, flash: Flash::Off })
            &&& osc_command(MessageView { addr: canned, args: steady }) == Ok::<
                CommandView,
                CommandErrorView,
            >(CommandView::Canned { id: leading, bg, fg, flash: None })
        }),
{
    let strings = string_args(colours);
    let steady = Tail { bg: colour_at(colours, 0), fg: colour_at(colours, 1), flash: None };
    let flashing = Tail { flash: asked_flash(flash), ..steady };
    assert forall|wrong: CommandErrorView| #[trigger]
        tail_of(strings, wrong) == Ok::<Tail, CommandErrorView>(steady) by {
        lemma_tail_of_colours(colours, wrong);
    }
    assert forall|wrong: CommandErrorView| #[trigger]
        tail_of(strings.insert(at, flash), wrong) == Ok::<Tail, CommandErrorView>(flashing) by {
        lemma_tail_of_colours_and_flash(colours, flash, at, wrong);
    }
    lemma_show_reads(leading, strings, steady);
    lemma_canned_reads(leading, strings, steady);
    lemma_show_reads(leading, strings.insert(at, flash), flashing);
    lemma_canned_reads(leading, strings.insert(at, flash), flashing);
}

/// Once an argument does not fit, no later one mends it.
proof fn lemma_tail_error_stays(args: Seq<ArgView>, n: int, wrong: CommandErrorView)
    requires
        0 <= n <= args.len(),
        tail_of(args.take(n), wrong) is Err,
    ensures
        tail_of(args, wrong) == tail_of(args.take(n), wrong),
    decreases args.len() - n,
{
    if n < args.len() {
        assert(args.take(n + 1).drop_last() =~= args.take(n));
        lemma_tail_error_stays(args, n + 1, wrong);
    } else {
        assert(args.take(n) =~= args);
    }
}

} // verus!
