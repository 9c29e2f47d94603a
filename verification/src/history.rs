//! What came in, and how much of it is kept.

use std::collections::VecDeque;

use vstd::prelude::*;

use crate::text;
use crate::time::Timestamp;

verus! {

/// One inbound message as the history shows it, and as one line of the log.
#[derive(Debug, PartialEq, Eq)]
pub struct HistoryEntry {
    pub at: Timestamp,
    pub via: String,
    pub from: Option<String>,
    pub raw: String,
    pub ok: bool,
    pub error: Option<String>,
}

/// An entry by its texts.
pub struct EntryView {
    pub at: Timestamp,
    pub via: Seq<char>,
    pub from: Option<Seq<char>>,
    pub raw: Seq<char>,
    pub ok: bool,
    pub error: Option<Seq<char>>,
}

impl View for HistoryEntry {
    type V = EntryView;

    open spec fn view(&self) -> EntryView {
        EntryView {
            at: self.at,
            via: self.via@,
            from: text::opt_text(self.from),
            raw: self.raw@,
            ok: self.ok,
            error: text::opt_text(self.error),
        }
    }
}

impl Clone for HistoryEntry {
    fn clone(&self) -> (r: HistoryEntry)
        ensures
            r == *self,
    {
        HistoryEntry {
            at: self.at,
            via: self.via.clone(),
            from: text::clone_opt(&self.from),
            raw: self.raw.clone(),
            ok: self.ok,
            error: text::clone_opt(&self.error),
        }
    }
}

/// How many entries survive: the ring size, the `history` reply and what a restart
/// reloads from the tail of the log.
pub const HISTORY_CAP: usize = 200;

/// Raw text is truncated for storage, to this many characters, so that a 64 KiB
/// line can't bloat the UI.
pub const HISTORY_RAW_CAP: usize = 512;

/// The log is rewritten from the ring after this many appends, so its size stays
/// bounded no matter how long the box runs.
pub const HISTORY_COMPACT_EVERY: usize = 2_000;

/// Raw text as it is stored: cut to the cap, with an ellipsis where it was.
pub open spec fn stored_raw(raw: Seq<char>) -> Seq<char> {
    if raw.len() > HISTORY_RAW_CAP {
        raw.take(HISTORY_RAW_CAP as int).push('…')
    } else {
        raw
    }
}

/// Raw text as it is stored.
pub fn truncate_raw(raw: &str) -> (r: String)
    ensures
        r@ == stored_raw(raw@),
{
    let v = text::chars_of(raw);
    let mut out = String::new();
    for i in 0..v.len()
        invariant
            v@ == raw@,
            i <= HISTORY_RAW_CAP,
            out@ == raw@.take(i as int),
    {
        if i == HISTORY_RAW_CAP {
            out.push('…');
            return out;
        }
        out.push(v[i]);
        proof {
            assert(raw@.take(i + 1) =~= raw@.take(i as int).push(raw@[i as int]));
        }
    }
    assert(raw@.take(raw@.len() as int) =~= raw@);
    out
}

/// Entries by their texts.
pub open spec fn entry_views(entries: Seq<HistoryEntry>) -> Seq<EntryView> {
    entries.map_values(|e: HistoryEntry| e@)
}

/// The last entries, as many as are kept.
pub open spec fn newest(entries: Seq<EntryView>) -> Seq<EntryView> {
    if entries.len() > HISTORY_CAP {
        entries.skip(entries.len() - HISTORY_CAP)
    } else {
        entries
    }
}

/// The ring after one more entry: the oldest makes room when it is full.
pub open spec fn recorded(ring: Seq<EntryView>, e: EntryView) -> Seq<EntryView> {
    if ring.len() >= HISTORY_CAP {
        ring.skip(1).push(e)
    } else {
        ring.push(e)
    }
}

/// Optional entries by their texts.
pub open spec fn line_views(lines: Seq<Option<HistoryEntry>>) -> Seq<Option<EntryView>> {
    lines.map_values(
        |l: Option<HistoryEntry>|
            match l {
                Some(e) => Some(e@),
                None => None,
            },
    )
}

/// The entries among the lines of a log, those that don't read skipped.
pub open spec fn entries_in(lines: Seq<Option<EntryView>>) -> Seq<EntryView>
    decreases lines.len(),
{
    if lines.len() == 0 {
        Seq::empty()
    } else {
        match lines.last() {
            Some(e) => entries_in(lines.drop_last()).push(e),
            None => entries_in(lines.drop_last()),
        }
    }
}

/// The inbound messages that are remembered, oldest first, never more than the cap.
#[derive(Debug)]
pub struct History {
    ring: VecDeque<HistoryEntry>,
}

impl View for History {
    type V = Seq<EntryView>;

    closed spec fn view(&self) -> Seq<EntryView> {
        entry_views(self.ring@)
    }
}

impl History {
    #[verifier::type_invariant]
    spec fn inv(self) -> bool {
        self.ring@.len() <= HISTORY_CAP
    }

    pub fn new() -> (r: History)
        ensures
            r@ == Seq::<EntryView>::empty(),
    {
        let r = History { ring: VecDeque::new() };
        assert(r@ =~= Seq::<EntryView>::empty());
        r
    }

    /// How many entries there are.
    pub fn len(&self) -> (n: usize)
        ensures
            n == self@.len(),
            n <= HISTORY_CAP,
    {
        proof {
            use_type_invariant(self);
        }
        self.ring.len()
    }

    /// Remember one more message, forgetting the oldest if that is one too many.
    pub fn record(&mut self, entry: HistoryEntry)
        ensures
            final(self)@ == recorded(old(self)@, entry@),
    {
        proof {
            use_type_invariant(&*self);
        }
        let ghost before = self.ring@;
        let mut ring: VecDeque<HistoryEntry> = VecDeque::new();
        std::mem::swap(&mut ring, &mut self.ring);
        if ring.len() >= HISTORY_CAP {
            let _ = ring.pop_front();
        }
        ring.push_back(entry);
        self.ring = ring;
        assert(self@ =~= recorded(entry_views(before), entry@));
    }

    /// Reload the tail of a log, given its lines as they read. Lines that don't
    /// (torn by a power cut, or from an older schema) are skipped, not fatal. The
    /// second value reports whether the log has outgrown the cap: compaction only
    /// fires after enough appends in one lifetime, so a restart-heavy box would
    /// otherwise grow the log forever.
    pub fn load(lines: Vec<Option<HistoryEntry>>) -> (r: (History, bool))
        ensures
            r.0@ == newest(entries_in(line_views(lines@))),
            r.1 == (lines@.len() > HISTORY_CAP),
    {
        let oversized = lines.len() > HISTORY_CAP;
        let ghost all = line_views(lines@);
        let mut history = History::new();
        assert(all.take(0) =~= Seq::<Option<EntryView>>::empty());
        for i in 0..lines.len()
            invariant
                all == line_views(lines@),
                history@ == newest(entries_in(all.take(i as int))),
        {
            proof {
                assert(all.take(i + 1).drop_last() =~= all.take(i as int));
                assert(all.take(i + 1).last() == all[i as int]);
            }
            match &lines[i] {
                Some(e) => {
                    proof {
                        law_ring_is_the_newest(entries_in(all.take(i as int)), e@);
                    }
                    history.record(e.clone());
                },
                None => {},
            }
        }
        assert(all.take(all.len() as int) =~= all);
        (history, oversized)
    }

    /// The entries, oldest first: the lines of a compacted log.
    pub fn oldest_first(&self) -> (r: Vec<HistoryEntry>)
        ensures
            entry_views(r@) == self@,
            r@.len() <= HISTORY_CAP,
    {
        proof {
            use_type_invariant(self);
        }
        let mut out: Vec<HistoryEntry> = Vec::new();
        for i in 0..self.ring.len()
            invariant
                out@ =~= self.ring@.take(i as int),
        {
            out.push(self.ring[i].clone());
        }
        assert(self.ring@.take(self.ring@.len() as int) =~= self.ring@);
        out
    }

    /// The entries, newest first, the order a human scans them in.
    pub fn newest_first(&self) -> (r: Vec<HistoryEntry>)
        ensures
            entry_views(r@) == self@.reverse(),
            r@.len() <= HISTORY_CAP,
    {
        proof {
            use_type_invariant(self);
        }
        let n: usize = self.ring.len();
        let mut out: Vec<HistoryEntry> = Vec::new();
        for i in 0..n
            invariant
                n == self.ring@.len(),
                out@.len() == i,
                forall|j: int| 0 <= j < i ==> out@[j] == self.ring@[n - 1 - j],
        {
            out.push(self.ring[n - 1 - i].clone());
        }
        assert(entry_views(out@) =~= self@.reverse());
        out
    }
}

/// The ring holds exactly the newest entries of everything recorded.
pub proof fn law_ring_is_the_newest(all: Seq<EntryView>, e: EntryView)
    ensures
        recorded(newest(all), e) == newest(all.push(e)),
        newest(all).len() <= HISTORY_CAP,
{
    assert(recorded(newest(all), e) =~= newest(all.push(e)));
}

/// The log as it stands, and the appends since it was last rewritten.
pub struct LogView {
    pub lines: Seq<EntryView>,
    pub appends: int,
}

/// The log after one more entry: appended, and rewritten as just the ring once
/// enough appends have gone by.
pub open spec fn logged(log: LogView, e: EntryView) -> LogView {
    let lines = log.lines.push(e);
    if log.appends + 1 >= HISTORY_COMPACT_EVERY {
        LogView { lines: newest(lines), appends: 0 }
    } else {
        LogView { lines, appends: log.appends + 1 }
    }
}

/// Whether a log is no longer than the ring and the appends since it was rewritten.
pub open spec fn bounded(log: LogView) -> bool {
    0 <= log.appends < HISTORY_COMPACT_EVERY && log.lines.len() <= HISTORY_CAP + log.appends
}

/// A restart reloads what was remembered: the tail of the log stays the ring,
/// whether an entry is appended or the log rewritten, and the log stays bounded.
pub proof fn law_log_reloads_the_ring(log: LogView, ring: Seq<EntryView>, e: EntryView)
    requires
        newest(log.lines) == ring,
        bounded(log),
    ensures
        newest(logged(log, e).lines) == recorded(ring, e),
        bounded(logged(log, e)),
        logged(log, e).lines.len() < HISTORY_CAP + HISTORY_COMPACT_EVERY,
{
    law_ring_is_the_newest(log.lines, e);
    let lines = log.lines.push(e);
    assert(newest(newest(lines)) =~= newest(lines));
}

/// A log rewritten as just the ring reads back as the ring.
pub proof fn law_compaction_keeps_the_ring(lines: Seq<EntryView>)
    ensures
        newest(newest(lines)) == newest(lines),
        newest(lines).len() <= HISTORY_CAP,
{
    assert(newest(newest(lines)) =~= newest(lines));
}

/// A torn final line does not disturb the load.
pub proof fn law_torn_line_is_skipped(lines: Seq<Option<EntryView>>)
    ensures
        entries_in(lines.push(None)) == entries_in(lines),
{
    assert(lines.push(None).drop_last() =~= lines);
}

/// Entries whose lines all read come back as they were.
pub proof fn law_whole_lines_read_back(entries: Seq<EntryView>)
    ensures
        entries_in(entries.map_values(|e: EntryView| Some(e))) == entries,
    decreases entries.len(),
{
    let lines = entries.map_values(|e: EntryView| Some(e));
    if entries.len() > 0 {
        let before = entries.drop_last();
        law_whole_lines_read_back(before);
        assert(lines.drop_last() =~= before.map_values(|e: EntryView| Some(e)));
        assert(before.push(entries.last()) =~= entries);
    } else {
        assert(entries =~= Seq::<EntryView>::empty());
    }
}

} // verus!
