use placard::command::{Command, CommandError};
use placard::net::{receive_datagram, unpack_envelopes};
use placard::osc::{NAN_BITS, OscArg, OscMessage, Packet, decode_packet, osc_reply, render};
use placard::scene::Flash;
use placard::seconds::Seconds;
use placard::time::Duration;

use rosc::{OscBundle, OscPacket, OscTime, OscType};

fn message(addr: &str, args: Vec<OscType>) -> OscPacket {
    OscPacket::Message(rosc::OscMessage { addr: addr.into(), args })
}

fn bytes(packet: &OscPacket) -> Vec<u8> {
    rosc::encoder::encode(packet).unwrap()
}

fn bundle(content: Vec<OscPacket>) -> OscPacket {
    OscPacket::Bundle(OscBundle { timetag: OscTime { seconds: 1, fractional: 2 }, content })
}

fn plain(addr: &str) -> Packet {
    Packet::Message(OscMessage { addr: addr.into(), args: vec![] })
}

fn seconds(v: f64) -> Seconds {
    Seconds { bits: v.to_bits(), text: v.to_string() }
}

#[test]
fn datagrams_decode_to_every_kind_of_argument() {
    let sent = message(
        "/x",
        vec![
            OscType::Int(-7),
            OscType::Long(1 << 40),
            OscType::Bool(true),
            OscType::Bool(false),
            OscType::String("hé".into()),
            OscType::Float(0.1),
            OscType::Double(0.1),
            OscType::Nil,
            OscType::Blob(vec![1, 2]),
        ],
    );
    let want = Packet::Message(OscMessage {
        addr: "/x".into(),
        args: vec![
            OscArg::Int(-7),
            OscArg::Long(1 << 40),
            OscArg::Bool(true),
            OscArg::Bool(false),
            OscArg::String("hé".into()),
            OscArg::Float { secs: seconds(f64::from(0.1f32)), shown: "0.1".into() },
            OscArg::Double { secs: seconds(0.1), shown: "Double(0.1)".into() },
            OscArg::Other("Nil".into()),
            OscArg::Other("Blob([1, 2])".into()),
        ],
    });
    assert_eq!(decode_packet(&bytes(&sent)), Some(want));
}

#[test]
fn whatever_is_no_number_has_one_bit_pattern() {
    let sent = message(
        "/x",
        vec![
            OscType::Float(f32::from_bits(0x7fc0_0001)),
            OscType::Float(f32::from_bits(0xffc0_0000)),
            OscType::Double(f64::from_bits(0xfff8_0000_0000_0001)),
        ],
    );
    let nan = Seconds { bits: NAN_BITS, text: "NaN".into() };
    let want = Packet::Message(OscMessage {
        addr: "/x".into(),
        args: vec![
            OscArg::Float { secs: nan.clone(), shown: "NaN".into() },
            OscArg::Float { secs: nan.clone(), shown: "NaN".into() },
            OscArg::Double { secs: nan, shown: "Double(NaN)".into() },
        ],
    });
    assert_eq!(decode_packet(&bytes(&sent)), Some(want));
    let show = message("/placard/show", vec![OscType::String("X".into()), OscType::Float(f32::NAN)]);
    let envelopes = receive_datagram(&bytes(&show), "10.0.0.1:5").unwrap();
    assert_eq!(
        envelopes[0].command,
        Err(CommandError::BadFlash("flash duration is not a number".into()))
    );
}

#[test]
fn undecodable_datagrams_are_nothing() {
    assert_eq!(decode_packet(b""), None);
    assert_eq!(decode_packet(b"GET / HTTP/1.1\r\n"), None);
    assert!(receive_datagram(b"nonsense", "10.0.0.1:5").is_none());
}

#[test]
fn bundles_are_unpacked_in_order() {
    let sent = bundle(vec![
        message("/a", vec![]),
        bundle(vec![message("/b", vec![]), bundle(vec![]), message("/c", vec![])]),
        message("/d", vec![]),
    ]);
    let packet = decode_packet(&bytes(&sent)).unwrap();
    assert_eq!(
        packet,
        Packet::Bundle(vec![
            plain("/a"),
            Packet::Bundle(vec![plain("/b"), Packet::Bundle(vec![]), plain("/c")]),
            plain("/d"),
        ])
    );
    let addrs: Vec<&str> = packet.messages().iter().map(|m| m.addr.as_str()).collect();
    assert_eq!(addrs, ["/a", "/b", "/c", "/d"]);
}

#[test]
fn messages_are_listed_readably() {
    let m = OscMessage {
        addr: "/placard/show".into(),
        args: vec![
            OscArg::String("GO".into()),
            OscArg::Int(1),
            OscArg::Float { secs: seconds(0.5), shown: "0.5".into() },
            OscArg::Bool(true),
            OscArg::Bool(false),
            OscArg::Long(-3),
            OscArg::Double { secs: seconds(0.5), shown: "Double(0.5)".into() },
            OscArg::Other("Nil".into()),
        ],
    };
    assert_eq!(
        render(&m),
        "/placard/show s:\"GO\" i:1 f:0.5 true false Long(-3) Double(0.5) Nil"
    );
    assert_eq!(render(&OscMessage { addr: "/placard/clear".into(), args: vec![] }), "/placard/clear");
}

#[test]
fn each_message_gets_an_envelope() {
    let sent = bundle(vec![
        message("/placard/show", vec![OscType::String("GO".into()), OscType::Float(10.0)]),
        message("/placard/nope", vec![]),
    ]);
    let envelopes = receive_datagram(&bytes(&sent), "192.168.10.20:53101").unwrap();
    assert_eq!(envelopes.len(), 2);
    assert_eq!(
        envelopes[0].command,
        Ok(Command::Show {
            text: "GO".into(),
            bg: None,
            fg: None,
            flash: Flash::For(Duration::from_secs(10)),
        })
    );
    assert_eq!(envelopes[0].raw, "/placard/show s:\"GO\" f:10");
    assert_eq!(envelopes[0].via, "osc");
    assert_eq!(envelopes[0].from.as_deref(), Some("192.168.10.20:53101"));
    assert_eq!(
        envelopes[1].command,
        Err(CommandError::UnknownAddress("/placard/nope".into()))
    );
    assert!(unpack_envelopes(&Packet::Bundle(vec![]), "x").is_empty());
}

#[test]
fn replies_are_osc_messages() {
    let ok = osc_reply(None).unwrap();
    assert_eq!(ok, b"/placard/ok\0,\0\0\0");
    assert_eq!(decode_packet(&ok), Some(plain("/placard/ok")));

    let error = osc_reply(Some(&CommandError::UnknownCanned("nope".into()))).unwrap();
    assert_eq!(error, b"/placard/error\0\0,s\0\0unknown canned id \"nope\"\0\0\0\0");
    assert_eq!(
        decode_packet(&error),
        Some(Packet::Message(OscMessage {
            addr: "/placard/error".into(),
            args: vec![OscArg::String("unknown canned id \"nope\"".into())],
        }))
    );
}
