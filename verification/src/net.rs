//! What the three transports share with the state thread: framing, envelopes and
//! the one JSON reply shape.

use vstd::prelude::*;

use vstd::utf8::*;

use crate::command;
use crate::command::{CommandError, CommandErrorView};
use crate::osc;
use crate::osc::{MessageView, OscMessage, Packet};
use crate::scene;
use crate::state;
use crate::state::{Envelope, EnvelopeView, Reply, ReplyView};
use crate::text;

verus! {

/// `c` inside a JSON string.
pub open spec fn json_char(c: char) -> Seq<char> {
    let n = c as int;
    if c == '"' {
        seq!['\\', '"']
    } else if c == '\\' {
        seq!['\\', '\\']
    } else if n == 0x8 {
        seq!['\\', 'b']
    } else if c == '\t' {
        seq!['\\', 't']
    } else if c == '\n' {
        seq!['\\', 'n']
    } else if n == 0xc {
        seq!['\\', 'f']
    } else if c == '\r' {
        seq!['\\', 'r']
    } else if n < 0x20 {
        seq!['\\', 'u', '0', '0', scene::hex_digit(n / 16), scene::hex_digit(n % 16)]
    } else {
        seq![c]
    }
}

/// The characters of `s` inside a JSON string.
pub open spec fn json_chars(s: Seq<char>) -> Seq<char>
    decreases s.len(),
{
    if s.len() == 0 {
        Seq::empty()
    } else {
        json_chars(s.drop_last()) + json_char(s.last())
    }
}

/// `s` as a JSON string.
pub open spec fn json_string(s: Seq<char>) -> Seq<char> {
    seq!['"'] + json_chars(s) + seq!['"']
}

/// The escape that `m` starts with: the character it stands for, and how many
/// characters of `m` it takes.
pub open spec fn json_escape(m: Seq<char>) -> Option<(char, int)> {
    if m.len() < 2 || m[0] != '\\' {
        None
    } else if m[1] == '"' || m[1] == '\\' || m[1] == '/' {
        Some((m[1], 2))
    } else if m[1] == 'b' {
        Some((8 as char, 2))
    } else if m[1] == 't' {
        Some(('\t', 2))
    } else if m[1] == 'n' {
        Some(('\n', 2))
    } else if m[1] == 'f' {
        Some((12 as char, 2))
    } else if m[1] == 'r' {
        Some(('\r', 2))
    } else if m[1] == 'u' && m.len() >= 6 && m[2] == '0' && m[3] == '0' && scene::is_hex(m[4])
        && scene::is_hex(m[5]) {
        Some(((scene::hex_value(m[4]) * 16 + scene::hex_value(m[5])) as char, 6))
    } else {
        None
    }
}

/// The text in a JSON string whose opening quote has been read, up to the closing
/// quote, which must be the end of `m`.
pub open spec fn json_rest(m: Seq<char>) -> Option<Seq<char>>
    decreases m.len(),
{
    if m.len() == 0 {
        None
    } else if m[0] == '"' {
        if m.len() == 1 {
            Some(Seq::empty())
        } else {
            None
        }
    } else if m[0] == '\\' {
        match json_escape(m) {
            Some((c, n)) => if 0 < n <= m.len() {
                match json_rest(m.skip(n)) {
                    Some(rest) => Some(seq![c] + rest),
                    None => None,
                }
            } else {
                None
            },
            None => None,
        }
    } else if (m[0] as int) < 0x20 {
        None
    } else {
        match json_rest(m.skip(1)) {
            Some(rest) => Some(seq![m[0]] + rest),
            None => None,
        }
    }
}

/// The text that a JSON string holds.
pub open spec fn json_text(m: Seq<char>) -> Option<Seq<char>> {
    if m.len() > 0 && m[0] == '"' {
        json_rest(m.skip(1))
    } else {
        None
    }
}

proof fn lemma_json_char_reads_back(c: char, rest: Seq<char>)
    requires
        json_rest(rest) is Some,
    ensures
        json_rest(json_char(c) + rest) == Some(seq![c] + json_rest(rest)->0),
{
    let m = json_char(c) + rest;
    let n = c as int;
    assert(m.skip(json_char(c).len() as int) =~= rest);
    assert(forall|i: int| 0 <= i < json_char(c).len() ==> m[i] == json_char(c)[i]);
    if json_char(c).len() == 6 {
        assert(scene::hex_value(scene::hex_digit(n / 16)) == n / 16);
        assert(scene::hex_value(scene::hex_digit(n % 16)) == n % 16);
        assert(m[4] == scene::hex_digit(n / 16) && m[5] == scene::hex_digit(n % 16));
    }
}

proof fn lemma_json_chars_front(c: char, s: Seq<char>)
    ensures
        json_chars(seq![c] + s) == json_char(c) + json_chars(s),
    decreases s.len(),
{
    let all = seq![c] + s;
    if s.len() == 0 {
        assert(all.drop_last() =~= Seq::<char>::empty());
        assert(all =~= seq![c]);
        assert(json_chars(all.drop_last()) =~= Seq::<char>::empty());
    } else {
        lemma_json_chars_front(c, s.drop_last());
        assert(all.drop_last() =~= seq![c] + s.drop_last());
        assert(all.last() == s.last());
    }
    assert(json_chars(all) =~= json_char(c) + json_chars(s));
}

proof fn lemma_json_chars_read_back(s: Seq<char>)
    ensures
        json_rest(json_chars(s) + seq!['"']) == Some(s),
    decreases s.len(),
{
    let end = seq!['"'];
    if s.len() > 0 {
        let rest = s.skip(1);
        assert(s =~= seq![s[0]] + rest);
        lemma_json_chars_front(s[0], rest);
        lemma_json_chars_read_back(rest);
        lemma_json_char_reads_back(s[0], json_chars(rest) + end);
        assert(json_chars(s) + end =~= json_char(s[0]) + (json_chars(rest) + end));
    } else {
        assert(s =~= Seq::<char>::empty());
        assert(json_chars(s) + end =~= end);
    }
}

/// A client that reads the JSON string reads the text that was put into it.
pub proof fn law_json_string_reads_back(s: Seq<char>)
    ensures
        json_text(json_string(s)) == Some(s),
{
    lemma_json_chars_read_back(s);
    assert(json_string(s).skip(1) =~= json_chars(s) + seq!['"']);
}

/// The `Display` of a `serde_json::Value` that holds a string: the string in double
/// quotes, with the quote, the backslash and the control characters below 0x20
/// escaped, and nothing else.
#[verifier::external_body]
fn quote_json(s: &str) -> (r: String)
    ensures
        r@ == json_string(s@),
{
    serde_json::Value::from(s).to_string()
}

/// The JSON answer to a command. `body` is what a status or a history serialises to.
pub open spec fn answer_json(
    answer: Result<ReplyView, CommandErrorView>,
    body: Option<Seq<char>>,
) -> Seq<char> {
    match answer {
        Ok(ReplyView::Done) => "{\"ok\":true}"@,
        Ok(ReplyView::Status(_)) => match body {
            Some(report) => report,
            None => "{\"ok\":false,\"error\":\"status serialisation failed\"}"@,
        },
        Ok(ReplyView::History(_)) => match body {
            Some(entries) => "{\"ok\":true,\"history\":"@ + entries + "}"@,
            None => "{\"ok\":false,\"error\":\"history serialisation failed\"}"@,
        },
        Err(e) => "{\"ok\":false,\"error\":"@ + json_string(command::complaint(e)) + "}"@,
    }
}

/// The one JSON reply shape shared by TCP and HTTP: `{"ok":true}`, a full status
/// report, `{"ok":true,"history":[…]}` or `{"ok":false,"error":"…"}`. `body` is the
/// serialised report or the serialised entries of a history, if there is one.
pub fn reply_json(answer: &Result<Reply, CommandError>, body: Option<String>) -> (r: String)
    ensures
        r@ == answer_json(state::answer_view(*answer), text::opt_text(body)),
{
    match answer {
        Ok(Reply::Done) => "{\"ok\":true}".to_owned(),
        Ok(Reply::Status(_)) => match body {
            Some(report) => report,
            None => "{\"ok\":false,\"error\":\"status serialisation failed\"}".to_owned(),
        },
        Ok(Reply::History(_)) => match body {
            Some(entries) => {
                let mut s = "{\"ok\":true,\"history\":".to_owned();
                s.append(entries.as_str());
                s.append("}");
                s
            },
            None => "{\"ok\":false,\"error\":\"history serialisation failed\"}".to_owned(),
        },
        Err(e) => {
            let mut s = "{\"ok\":false,\"error\":".to_owned();
            let reason = e.to_string();
            let quoted = quote_json(reason.as_str());
            s.append(quoted.as_str());
            s.append("}");
            s
        },
    }
}

/// The HTTP status of an answer: rejected commands are the client's fault, failed
/// queries the appliance's.
pub open spec fn http_status(accepted: bool, query: bool) -> int {
    if accepted {
        200
    } else if query {
        500
    } else {
        400
    }
}

/// The HTTP status of an answer.
pub fn http_code(answer: &Result<Reply, CommandError>, query: bool) -> (code: u16)
    ensures
        code == http_status(answer is Ok, query),
{
    match answer {
        Ok(_) => 200,
        Err(_) => if query {
            500
        } else {
            400
        },
    }
}

/// Maximum line *content* (the terminator doesn't count against it).
pub const MAX_LINE: usize = 65_536;

/// How much of a line is read at most: its content and room for the terminator;
/// anything longer is over the limit even before a newline shows up.
pub const READ_LIMIT: usize = 65_539;

/// `line` without the last byte, where that is `b`.
pub open spec fn without_last(line: Seq<u8>, b: u8) -> Seq<u8> {
    if line.len() > 0 && line.last() == b {
        line.drop_last()
    } else {
        line
    }
}

/// The content of a line: what stands before `\n` or `\r\n`.
pub open spec fn line_content(line: Seq<u8>) -> Seq<u8> {
    without_last(without_last(line, 0x0a), 0x0d)
}

/// What a line that was read calls for.
#[derive(Debug, PartialEq, Eq)]
pub enum Line {
    /// Nothing on it: read on.
    Blank,
    /// A command to parse and answer; then read on.
    Command(String),
    /// A reason to answer with, and the line for the history; then close.
    Reject(CommandError, String),
}

/// What a line calls for, by its texts.
pub enum LineView {
    Blank,
    Command(Seq<char>),
    Reject(CommandErrorView, Seq<char>),
}

impl View for Line {
    type V = LineView;

    open spec fn view(&self) -> LineView {
        match *self {
            Line::Blank => LineView::Blank,
            Line::Command(s) => LineView::Command(s@),
            Line::Reject(e, raw) => LineView::Reject(e@, raw@),
        }
    }
}

/// `std::str::Utf8Error`, which only says that bytes are not UTF-8.
#[verifier::external_type_specification]
#[verifier::external_body]
pub struct ExUtf8Error(std::str::Utf8Error);

/// `std::str::from_utf8`: the bytes as text if they are valid UTF-8, else an error.
pub assume_specification<'a>[ std::str::from_utf8 ](v: &'a [u8]) -> (r: Result<
    &'a str,
    std::str::Utf8Error,
>)
    ensures
        match r {
            Ok(s) => valid_utf8(v@) && encode_utf8(s@) == v@,
            Err(_) => !valid_utf8(v@),
        },
;

/// What `String::from_utf8_lossy` makes of bytes.
pub uninterp spec fn lossy_text(bytes: Seq<u8>) -> Seq<char>;

/// `String::from_utf8_lossy`: the bytes as text, what is not UTF-8 replaced; bytes
/// that are all UTF-8 are the text they encode.
#[verifier::external_body]
fn lossy(bytes: &[u8]) -> (r: String)
    ensures
        r@ == lossy_text(bytes@),
        valid_utf8(bytes@) ==> r@ == decode_utf8(bytes@),
{
    String::from_utf8_lossy(bytes).into_owned()
}

/// What a line as it was read calls for: too much content or content that is not
/// UTF-8 is rejected, blank lines are passed over, and the rest is a command.
pub open spec fn line_verdict(line: Seq<u8>) -> LineView {
    let content = line_content(line);
    if content.len() > MAX_LINE {
        LineView::Reject(CommandErrorView::LineTooLong, lossy_text(content))
    } else if !valid_utf8(content) {
        LineView::Reject(CommandErrorView::InvalidUtf8, lossy_text(content))
    } else {
        let t = text::trimmed(decode_utf8(content));
        if t.len() == 0 {
            LineView::Blank
        } else {
            LineView::Command(t)
        }
    }
}

/// What a line as it was read, terminator and all, calls for. Rejected lines go to
/// the history and are answered like everything else; the connection then closes.
pub fn take_line(line: Vec<u8>) -> (r: Line)
    ensures
        r@ == line_verdict(line@),
{
    let mut line = line;
    let ghost whole = line@;
    if line.len() > 0 && line[line.len() - 1] == 0x0a {
        let _ = line.pop();
        assert(line@ =~= whole.drop_last());
    }
    let ghost chopped = line@;
    if line.len() > 0 && line[line.len() - 1] == 0x0d {
        let _ = line.pop();
        assert(line@ =~= chopped.drop_last());
    }
    assert(line@ == line_content(whole));
    if line.len() > MAX_LINE {
        return Line::Reject(CommandError::LineTooLong, lossy(line.as_slice()));
    }
    match std::str::from_utf8(line.as_slice()) {
        Ok(s) => {
            proof {
                encode_utf8_decode_utf8(s@);
            }
            let t = text::trim(s);
            let found = text::chars_of(t);
            if found.len() == 0 {
                Line::Blank
            } else {
                Line::Command(t.to_owned())
            }
        },
        Err(_) => Line::Reject(CommandError::InvalidUtf8, lossy(line.as_slice())),
    }
}

/// Reading no more than the limit of a line decides it as the whole line would be
/// decided: a line that is cut off is too long anyway, and one that is not too long
/// is never cut off.
pub proof fn law_bounded_read_is_enough(line: Seq<u8>)
    requires
        forall|i: int| 0 <= i < line.len() - 1 ==> line[i] != 0x0a,
    ensures
        line.len() <= READ_LIMIT || line_content(line).len() > MAX_LINE,
        line.len() > READ_LIMIT ==> line_content(line.take(READ_LIMIT as int)).len() > MAX_LINE,
{
}

/// The envelope of an OSC message from `from`.
pub open spec fn osc_envelope(msg: MessageView, from: Seq<char>) -> EnvelopeView {
    EnvelopeView {
        command: command::osc_command(msg),
        raw: osc::listed(msg),
        via: "osc"@,
        from: Some(from),
    }
}

/// Envelopes by their texts.
pub open spec fn envelope_views(v: Seq<Envelope>) -> Seq<EnvelopeView> {
    v.map_values(|e: Envelope| e@)
}

/// The envelopes of the messages of a packet from `from`, in order.
pub open spec fn packet_envelopes(msgs: Seq<MessageView>, from: Seq<char>) -> Seq<EnvelopeView> {
    msgs.map_values(|m: MessageView| osc_envelope(m, from))
}

/// One envelope for each message of a packet, parse failures included: the state
/// thread records them in the history and sends the acknowledgement either way.
pub fn unpack_envelopes(packet: &Packet, from: &str) -> (r: Vec<Envelope>)
    ensures
        envelope_views(r@) == packet_envelopes(osc::messages_in(packet@), from@),
{
    let msgs: Vec<&OscMessage> = packet.messages();
    let ghost all = packet_envelopes(osc::messages_in(packet@), from@);
    let mut out: Vec<Envelope> = Vec::new();
    for i in 0..msgs.len()
        invariant
            osc::message_views(msgs@) == osc::messages_in(packet@),
            all == packet_envelopes(osc::messages_in(packet@), from@),
            envelope_views(out@) =~= all.take(i as int),
    {
        let msg = msgs[i];
        proof {
            assert(osc::message_views(msgs@)[i as int] == msg@);
            assert(all.take(i + 1) =~= all.take(i as int).push(all[i as int]));
        }
        let ghost before = out@;
        let envelope = Envelope {
            command: command::parse_osc(msg),
            raw: osc::render(msg),
            via: "osc",
            from: Some(from.to_owned()),
        };
        out.push(envelope);
        assert(envelope_views(out@) =~= envelope_views(before).push(envelope@));
    }
    assert(all.take(all.len() as int) =~= all);
    out
}

/// The envelopes in a datagram from `from`; none where it is not OSC at all, for
/// then there is nothing to attribute or reply to.
pub fn receive_datagram(datagram: &[u8], from: &str) -> (r: Option<Vec<Envelope>>)
    requires
        datagram@.len() <= osc::MAX_DATAGRAM,
    ensures
        match osc::osc_decoded(datagram@) {
            Some(p) => r matches Some(v) && envelope_views(v@) == packet_envelopes(
                osc::messages_in(p),
                from@,
            ),
            None => r is None,
        },
{
    match osc::decode_packet(datagram) {
        Some(packet) => Some(unpack_envelopes(&packet, from)),
        None => None,
    }
}

} // verus!
