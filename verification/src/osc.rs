//! OSC messages as the appliance sees them, and the replies it sends.

use rosc::OscType;

use vstd::prelude::*;

use vstd::utf8::*;

use crate::command;
use crate::command::CommandError;
use crate::seconds;
use crate::seconds::{Seconds, SecondsView};
use crate::text;

verus! {

/// One argument of a message.
#[derive(Debug, PartialEq, Eq)]
pub enum OscArg {
    Int(i32),
    Long(i64),
    Bool(bool),
    String(String),
    /// A single-precision number, widened, and the form it is listed in.
    Float { secs: Seconds, shown: String },
    /// A double-precision number, and the form it is listed in.
    Double { secs: Seconds, shown: String },
    /// Anything else, by the form it is listed in.
    Other(String),
}

/// One argument by its texts.
pub enum ArgView {
    Int(i32),
    Long(i64),
    Bool(bool),
    String(Seq<char>),
    Float { secs: SecondsView, shown: Seq<char> },
    Double { secs: SecondsView, shown: Seq<char> },
    Other(Seq<char>),
}

impl View for OscArg {
    type V = ArgView;

    open spec fn view(&self) -> ArgView {
        match *self {
            OscArg::Int(n) => ArgView::Int(n),
            OscArg::Long(n) => ArgView::Long(n),
            OscArg::Bool(b) => ArgView::Bool(b),
            OscArg::String(s) => ArgView::String(s@),
            OscArg::Float { secs, shown } => ArgView::Float { secs: secs@, shown: shown@ },
            OscArg::Double { secs, shown } => ArgView::Double { secs: secs@, shown: shown@ },
            OscArg::Other(shown) => ArgView::Other(shown@),
        }
    }
}

impl Clone for OscArg {
    fn clone(&self) -> (r: OscArg)
        ensures
            r == *self,
    {
        match self {
            OscArg::Int(n) => OscArg::Int(*n),
            OscArg::Long(n) => OscArg::Long(*n),
            OscArg::Bool(b) => OscArg::Bool(*b),
            OscArg::String(s) => OscArg::String(s.clone()),
            OscArg::Float { secs, shown } => OscArg::Float {
                secs: secs.clone(),
                shown: shown.clone(),
            },
            OscArg::Double { secs, shown } => OscArg::Double {
                secs: secs.clone(),
                shown: shown.clone(),
            },
            OscArg::Other(shown) => OscArg::Other(shown.clone()),
        }
    }
}

/// An address and its arguments.
#[derive(Debug, PartialEq, Eq)]
pub struct OscMessage {
    pub addr: String,
    pub args: Vec<OscArg>,
}

/// A message by its texts.
pub struct MessageView {
    pub addr: Seq<char>,
    pub args: Seq<ArgView>,
}

/// Arguments by their texts.
pub open spec fn arg_views(args: Seq<OscArg>) -> Seq<ArgView> {
    args.map_values(|a: OscArg| a@)
}

impl View for OscMessage {
    type V = MessageView;

    open spec fn view(&self) -> MessageView {
        MessageView { addr: self.addr@, args: arg_views(self.args@) }
    }
}

/// A datagram's content: one message, or a bundle of packets.
#[derive(Debug, PartialEq, Eq)]
pub enum Packet {
    Message(OscMessage),
    Bundle(Vec<Packet>),
}

/// A packet by its texts.
pub enum PacketView {
    Message(MessageView),
    Bundle(Seq<PacketView>),
}

/// What a packet holds, by its texts.
pub open spec fn packet_view(p: Packet) -> PacketView
    decreases p,
{
    match p {
        Packet::Message(m) => PacketView::Message(m@),
        Packet::Bundle(v) => PacketView::Bundle(
            Seq::new(
                v@.len(),
                |i: int|
                    if 0 <= i < v@.len() {
                        packet_view(v@[i])
                    } else {
                        arbitrary()
                    },
            ),
        ),
    }
}

impl View for Packet {
    type V = PacketView;

    open spec fn view(&self) -> PacketView {
        packet_view(*self)
    }
}

/// The messages of a packet, bundles unpacked in order.
pub open spec fn messages_in(p: PacketView) -> Seq<MessageView>
    decreases p, 0nat,
{
    match p {
        PacketView::Message(m) => seq![m],
        PacketView::Bundle(s) => messages_in_all(s, s.len() as int),
    }
}

/// The messages of the first `n` packets of a bundle.
pub open spec fn messages_in_all(s: Seq<PacketView>, n: int) -> Seq<MessageView>
    decreases s, n,
{
    if n <= 0 || n > s.len() {
        Seq::empty()
    } else {
        messages_in_all(s, n - 1) + messages_in(s[n - 1])
    }
}

/// Messages by their texts.
pub open spec fn message_views(v: Seq<&OscMessage>) -> Seq<MessageView> {
    v.map_values(|m: &OscMessage| m@)
}

impl Packet {
    /// The messages of the packet: bundles are unpacked, each message stands for
    /// itself, and bundle timestamps are ignored.
    pub fn messages(&self) -> (r: Vec<&OscMessage>)
        ensures
            message_views(r@) == messages_in(self@),
    {
        let mut out: Vec<&OscMessage> = Vec::new();
        self.collect(&mut out);
        assert(message_views(out@) =~= messages_in(self@));
        out
    }

    fn collect<'a>(&'a self, out: &mut Vec<&'a OscMessage>)
        ensures
            message_views(final(out)@) == message_views(old(out)@) + messages_in(self@),
        decreases *self,
    {
        let ghost before = out@;
        match self {
            Packet::Message(m) => {
                out.push(m);
                assert(message_views(out@) =~= message_views(before).push(m@));
            },
            Packet::Bundle(inner) => {
                let ghost all = self@->Bundle_0;
                assert(message_views(out@) =~= message_views(before) + messages_in_all(all, 0));
                for i in 0..inner.len()
                    invariant
                        *self == Packet::Bundle(*inner),
                        self@ == PacketView::Bundle(all),
                        all.len() == inner@.len(),
                        message_views(out@) == message_views(before) + messages_in_all(
                            all,
                            i as int,
                        ),
                {
                    assert(all[i as int] == inner@[i as int]@);
                    let ghost so_far = message_views(out@);
                    inner[i].collect(out);
                    assert(message_views(out@) =~= message_views(before) + messages_in_all(
                        all,
                        i + 1,
                    ));
                }
            },
        }
    }
}

/// `rosc::OscPacket`, carried from the decoder to where it is taken apart.
#[verifier::external_type_specification]
#[verifier::external_body]
pub struct ExRoscPacket(rosc::OscPacket);

/// `rosc::OscType`, one argument of a decoded message.
#[verifier::external_type_specification]
#[verifier::external_body]
pub struct ExRoscType(rosc::OscType);

/// What `rosc::decoder::decode_udp` reads from a datagram; nothing where it reads
/// no packet.
pub uninterp spec fn osc_decoded(datagram: Seq<u8>) -> Option<PacketView>;

/// What a decoded packet holds.
pub uninterp spec fn packet_contents(packet: rosc::OscPacket) -> PacketView;

/// What a decoded argument holds, whatever is no number by one bit pattern.
pub uninterp spec fn arg_contents(arg: rosc::OscType) -> ArgView;

/// The longest datagram that is read.
pub const MAX_DATAGRAM: usize = 65_536;

/// `rosc::decoder::decode_udp`: the packet it reads from a datagram, or that it
/// reads none. Bytes left over after the packet are dropped.
#[verifier::external_body]
fn decode_udp(datagram: &[u8]) -> (r: Option<rosc::OscPacket>)
    requires
        datagram@.len() <= MAX_DATAGRAM,
    ensures
        match r {
            Some(p) => osc_decoded(datagram@) == Some(packet_contents(p)),
            None => osc_decoded(datagram@) is None,
        },
{
    match rosc::decoder::decode_udp(datagram) {
        Ok((_, packet)) => Some(packet),
        Err(_) => None,
    }
}

/// A decoded packet taken apart.
enum Unpacked<'a> {
    Message(&'a String, &'a Vec<rosc::OscType>),
    Bundle(&'a Vec<rosc::OscPacket>),
}

/// The two variants of `rosc::OscPacket` told apart: a message is its address and
/// its arguments, a bundle the packets in it.
#[verifier::external_body]
fn unpack<'a>(packet: &'a rosc::OscPacket) -> (r: Unpacked<'a>)
    ensures
        match r {
            Unpacked::Message(addr, args) => packet_contents(*packet) == PacketView::Message(
                MessageView {
                    addr: addr@,
                    args: args@.map_values(|a: rosc::OscType| arg_contents(a)),
                },
            ),
            Unpacked::Bundle(inner) => packet_contents(*packet) == PacketView::Bundle(
                inner@.map_values(|p: rosc::OscPacket| packet_contents(p)),
            ),
        },
{
    match packet {
        rosc::OscPacket::Message(m) => Unpacked::Message(&m.addr, &m.args),
        rosc::OscPacket::Bundle(b) => Unpacked::Bundle(&b.content),
    }
}

/// The bits that stand for every value that is no number.
pub const NAN_BITS: u64 = 0x7ff8_0000_0000_0000;

/// A number by its bits, whatever is no number by one bit pattern.
pub open spec fn settled_secs(s: SecondsView) -> SecondsView {
    if seconds::is_nan(s.bits) {
        SecondsView { bits: NAN_BITS, ..s }
    } else {
        s
    }
}

/// An argument whose numbers are settled.
pub open spec fn settled(a: ArgView) -> ArgView {
    match a {
        ArgView::Float { secs, shown } => ArgView::Float { secs: settled_secs(secs), shown },
        ArgView::Double { secs, shown } => ArgView::Double { secs: settled_secs(secs), shown },
        _ => a,
    }
}

fn settle_secs(s: Seconds) -> (r: Seconds)
    ensures
        r@ == settled_secs(s@),
{
    if s.is_nan() {
        Seconds { bits: NAN_BITS, text: s.text }
    } else {
        s
    }
}

fn settle(arg: OscArg) -> (r: OscArg)
    ensures
        r@ == settled(arg@),
{
    match arg {
        OscArg::Float { secs, shown } => OscArg::Float { secs: settle_secs(secs), shown },
        OscArg::Double { secs, shown } => OscArg::Double { secs: settle_secs(secs), shown },
        other => other,
    }
}

/// One `rosc::OscType` as the library holds it: integers, booleans and strings as
/// they are, a single-precision number widened exactly, numbers with their decimal
/// form, and the rest by the form that its `Debug` writes. Which bits stand for a
/// value that is no number depends on the machine, and is left open.
#[verifier::external_body]
fn arg_from(arg: &rosc::OscType) -> (r: OscArg)
    ensures
        settled(r@) == arg_contents(*arg),
{
    let (wide, single, shown) = match arg {
        OscType::Float(f) => (OscType::Double((*f).into()), true, f.to_string()),
        other => (other.clone(), false, format!("{other:?}")),
    };
    match wide {
        OscType::Int(n) => OscArg::Int(n),
        OscType::Long(n) => OscArg::Long(n),
        OscType::Bool(b) => OscArg::Bool(b),
        OscType::String(s) => OscArg::String(s),
        OscType::Double(d) => {
            let secs = Seconds { bits: d.to_bits(), text: d.to_string() };
            if single { OscArg::Float { secs, shown } } else { OscArg::Double { secs, shown } }
        },
        _ => OscArg::Other(shown),
    }
}

fn args_from(args: &Vec<rosc::OscType>) -> (r: Vec<OscArg>)
    ensures
        arg_views(r@) == args@.map_values(|a: rosc::OscType| arg_contents(a)),
{
    let ghost all = args@.map_values(|a: rosc::OscType| arg_contents(a));
    let mut out: Vec<OscArg> = Vec::new();
    for i in 0..args.len()
        invariant
            all == args@.map_values(|a: rosc::OscType| arg_contents(a)),
            arg_views(out@) =~= all.take(i as int),
    {
        let ghost before = out@;
        let arg = settle(arg_from(&args[i]));
        out.push(arg);
        proof {
            assert(arg_views(out@) =~= arg_views(before).push(arg@));
            assert(all.take(i + 1) =~= all.take(i as int).push(all[i as int]));
        }
    }
    assert(all.take(all.len() as int) =~= all);
    out
}

fn packet_from(packet: &rosc::OscPacket) -> (r: Packet)
    ensures
        r@ == packet_contents(*packet),
    decreases packet_contents(*packet),
{
    match unpack(packet) {
        Unpacked::Message(addr, args) => Packet::Message(
            OscMessage { addr: addr.clone(), args: args_from(args) },
        ),
        Unpacked::Bundle(inner) => {
            let ghost all = packet_contents(*packet)->Bundle_0;
            let mut out: Vec<Packet> = Vec::new();
            for i in 0..inner.len()
                invariant
                    packet_contents(*packet) == PacketView::Bundle(all),
                    all == inner@.map_values(|p: rosc::OscPacket| packet_contents(p)),
                    out@.len() == i,
                    forall|j: int| 0 <= j < i ==> (#[trigger] out@[j])@ == all[j],
            {
                proof {
                    let whole = packet_contents(*packet);
                    assert(packet_contents(inner@[i as int]) == all[i as int]);
                    assert(decreases_to!(whole => whole->Bundle_0[i as int]));
                }
                out.push(packet_from(&inner[i]));
            }
            let r = Packet::Bundle(out);
            assert(r@->Bundle_0 =~= all);
            r
        },
    }
}

/// The packet in a datagram, or none where the datagram is not OSC at all.
pub fn decode_packet(datagram: &[u8]) -> (r: Option<Packet>)
    requires
        datagram@.len() <= MAX_DATAGRAM,
    ensures
        match r {
            Some(p) => osc_decoded(datagram@) == Some(p@),
            None => osc_decoded(datagram@) is None,
        },
{
    match decode_udp(datagram) {
        Some(packet) => Some(packet_from(&packet)),
        None => None,
    }
}

/// One argument as the history lists it.
pub open spec fn listed_arg(a: ArgView) -> Seq<char> {
    match a {
        ArgView::String(s) => " s:"@ + text::debug_quoted(s),
        ArgView::Int(n) => " i:"@ + text::signed_decimal(n as int),
        ArgView::Float { shown, .. } => " f:"@ + shown,
        ArgView::Bool(b) => if b {
            " true"@
        } else {
            " false"@
        },
        ArgView::Long(n) => " Long("@ + text::signed_decimal(n as int) + ")"@,
        ArgView::Double { shown, .. } => " "@ + shown,
        ArgView::Other(shown) => " "@ + shown,
    }
}

/// Arguments as the history lists them.
pub open spec fn listed_args(args: Seq<ArgView>) -> Seq<char>
    decreases args.len(),
{
    if args.len() == 0 {
        Seq::empty()
    } else {
        listed_args(args.drop_last()) + listed_arg(args.last())
    }
}

/// A message as the history lists it.
pub open spec fn listed(msg: MessageView) -> Seq<char> {
    msg.addr + listed_args(msg.args)
}

fn list_arg(out: &mut String, arg: &OscArg)
    ensures
        final(out)@ == old(out)@ + listed_arg(arg@),
{
    let ghost before = out@;
    match arg {
        OscArg::String(s) => {
            out.append(" s:");
            let quoted = text::quote_debug(s.as_str());
            out.append(quoted.as_str());
        },
        OscArg::Int(n) => {
            out.append(" i:");
            let digits = text::show_i64(*n as i64);
            out.append(digits.as_str());
        },
        OscArg::Float { shown, .. } => {
            out.append(" f:");
            out.append(shown.as_str());
        },
        OscArg::Bool(b) => {
            if *b {
                out.append(" true");
            } else {
                out.append(" false");
            }
        },
        OscArg::Long(n) => {
            out.append(" Long(");
            let digits = text::show_i64(*n);
            out.append(digits.as_str());
            out.append(")");
        },
        OscArg::Double { shown, .. } => {
            out.append(" ");
            out.append(shown.as_str());
        },
        OscArg::Other(shown) => {
            out.append(" ");
            out.append(shown.as_str());
        },
    }
    assert(out@ =~= before + listed_arg(arg@));
}

/// A readable one-line form of a message for the history; the raw datagram is
/// binary and useless to a human.
pub fn render(msg: &OscMessage) -> (r: String)
    ensures
        r@ == listed(msg@),
{
    let ghost all = arg_views(msg.args@);
    let mut out = msg.addr.clone();
    assert(all.take(0) =~= Seq::<ArgView>::empty());
    assert(out@ =~= msg.addr@ + listed_args(all.take(0)));
    for i in 0..msg.args.len()
        invariant
            all == arg_views(msg.args@),
            out@ == msg.addr@ + listed_args(all.take(i as int)),
    {
        list_arg(&mut out, &msg.args[i]);
        proof {
            assert(all.take(i + 1).drop_last() =~= all.take(i as int));
            assert(all.take(i + 1).last() == all[i as int]);
            assert(out@ =~= msg.addr@ + listed_args(all.take(i + 1)));
        }
    }
    assert(all.take(all.len() as int) =~= all);
    out
}

/// Bytes as OSC lays them out: ended by one to four zeros, to a multiple of four.
pub open spec fn padded(bytes: Seq<u8>) -> Seq<u8> {
    bytes + Seq::new((4 - bytes.len() % 4) as nat, |i: int| 0u8)
}

/// The datagram of a message with an address and at most one string.
pub open spec fn encoded(addr: Seq<char>, arg: Option<Seq<char>>) -> Seq<u8> {
    match arg {
        Some(s) => padded(encode_utf8(addr)) + padded(seq![0x2c, 0x73]) + padded(encode_utf8(s)),
        None => padded(encode_utf8(addr)) + padded(seq![0x2c]),
    }
}

/// Whether `s` holds no NUL, the character an OSC string ends at.
pub open spec fn no_nul(s: Seq<char>) -> bool {
    forall|i: int| 0 <= i < s.len() ==> s[i] != '\0'
}

/// A message with an address and at most one string.
pub open spec fn simple_message(addr: Seq<char>, arg: Option<Seq<char>>) -> MessageView {
    MessageView {
        addr,
        args: match arg {
            Some(s) => seq![ArgView::String(s)],
            None => Seq::empty(),
        },
    }
}

/// Whether an address and string can be read back from a datagram.
pub open spec fn readable(addr: Seq<char>, arg: Option<Seq<char>>) -> bool {
    &&& addr.len() > 0
    &&& addr[0] == '/'
    &&& no_nul(addr)
    &&& arg matches Some(s) ==> no_nul(s)
}

/// An optional slice by its text.
pub open spec fn opt_slice(s: Option<&str>) -> Option<Seq<char>> {
    match s {
        Some(t) => Some(t@),
        None => None,
    }
}

/// `rosc::encoder::encode` on a message with an address and at most one string: the
/// address, the type tags and the string, each as its UTF-8 bytes, zero-padded.
/// Encoding into memory does not fail, and `rosc::decoder::decode_udp` reads the
/// message back where it holds no NUL and its address starts with a slash.
#[verifier::external_body]
fn encode_message(addr: &str, arg: Option<&str>) -> (r: Option<Vec<u8>>)
    ensures
        match r {
            Some(b) => {
                &&& b@ == encoded(addr@, opt_slice(arg))
                &&& readable(addr@, opt_slice(arg)) ==> osc_decoded(b@) == Some(
                    PacketView::Message(simple_message(addr@, opt_slice(arg))),
                )
            },
            None => false,
        },
{
    let args = arg.iter().map(|s| rosc::OscType::String(s.to_string())).collect();
    let message = rosc::OscMessage { addr: addr.to_string(), args };
    rosc::encoder::encode(&rosc::OscPacket::Message(message)).ok()
}

/// The message that answers an OSC message: `/placard/ok`, or `/placard/error` and
/// the reason.
pub open spec fn reply_message(error: Option<command::CommandErrorView>) -> (
    Seq<char>,
    Option<Seq<char>>,
) {
    match error {
        None => ("/placard/ok"@, None),
        Some(e) => ("/placard/error"@, Some(command::complaint(e))),
    }
}

/// An optional error by its texts.
pub open spec fn opt_error(e: Option<&CommandError>) -> Option<command::CommandErrorView> {
    match e {
        Some(e) => Some(e@),
        None => None,
    }
}

/// The datagram that answers an OSC message: `/placard/ok`, or `/placard/error` and
/// the reason. A reason without NUL is what a decoder reads from it.
pub fn osc_reply(error: Option<&CommandError>) -> (r: Option<Vec<u8>>)
    ensures
        ({
            let (addr, arg) = reply_message(opt_error(error));
            match r {
                Some(b) => {
                    &&& b@ == encoded(addr, arg)
                    &&& (arg matches Some(reason) ==> no_nul(reason)) ==> osc_decoded(b@) == Some(
                        PacketView::Message(simple_message(addr, arg)),
                    )
                },
                None => false,
            }
        }),
{
    proof {
        reveal_strlit("/placard/ok");
        reveal_strlit("/placard/error");
    }
    match error {
        None => encode_message("/placard/ok", None),
        Some(e) => {
            let reason = e.to_string();
            encode_message("/placard/error", Some(reason.as_str()))
        },
    }
}

} // verus!
