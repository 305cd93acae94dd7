//! Wire-codec tests: decoding the documented line shapes, encoding, and
//! the round trip.
use neighbor_chat::ident::Uuid;
use neighbor_chat::packet::{ChatMessage, DecodeError, Packet};

#[test]
fn error_deserializes() {
    let val = r#"{
            "type": -1,
            "error" : "Some error message here",
            "clientshutdown": 0
        }"#;
    let packet = Packet::from_bytes(val.as_bytes()).unwrap();
    match packet {
        Packet::Error {
            error,
            clientshutdown,
        } => {
            assert_eq!(error, "Some error message here");
            assert!(!clientshutdown);
        }
        _ => panic!("should be an error packet"),
    }
}

#[test]
fn status_deserializes() {
    let val = r#"{
            "type": 0,
            "status" : "Some status message here"
        }"#;
    let packet = Packet::from_bytes(val.as_bytes()).unwrap();
    match packet {
        Packet::Status { status } => {
            assert_eq!(status, "Some status message here");
        }
        _ => panic!("should be a status packet"),
    }
}

#[test]
fn chat_deserializes_full() {
    let val = r#"{
            "type" : 1,
            "id" : "d4986bec-8026-462a-9a7a-f04eebcf7612",
            "inReplyTo": "d4986bec-8026-462b-8a7a-f04dfbcf1115",
            "message" : "mutta lopettakaa te hurjistelunne ja vierailkaa",
            "user" : "telemakos",
            "sent":16782697319
        }"#;
    let packet = Packet::from_bytes(val.as_bytes()).unwrap();
    match packet {
        Packet::Chat(chat) => {
            assert_eq!(
                chat.id,
                Uuid::parse("d4986bec-8026-462a-9a7a-f04eebcf7612").unwrap()
            );
            assert_eq!(
                chat.inReplyTo,
                Some(Uuid::parse("d4986bec-8026-462b-8a7a-f04dfbcf1115").unwrap())
            );
            assert_eq!(
                chat.message,
                "mutta lopettakaa te hurjistelunne ja vierailkaa"
            );
            assert_eq!(chat.user, "telemakos");
            assert_eq!(chat.sent, 16782697319i64);
            assert_eq!(chat.directMessageTo, None);
        }
        _ => panic!("should be a chat packet"),
    }
}

#[test]
fn chat_deserializes_partial() {
    let val = r#"{
            "type" : 1,
            "id" : "d4986bec-8026-462a-9a7a-f04eebcf7612",
            "message" : "mutta lopettakaa te hurjistelunne ja vierailkaa",
            "user" : "telemakos",
            "sent": 16782697219
        }"#;
    let packet = Packet::from_bytes(val.as_bytes()).unwrap();
    match packet {
        Packet::Chat(chat) => {
            assert_eq!(
                chat.id,
                Uuid::parse("d4986bec-8026-462a-9a7a-f04eebcf7612").unwrap()
            );
            assert_eq!(chat.inReplyTo, None);
            assert_eq!(
                chat.message,
                "mutta lopettakaa te hurjistelunne ja vierailkaa"
            );
            assert_eq!(chat.user, "telemakos");
            assert_eq!(chat.sent, 16782697219);
            assert_eq!(chat.directMessageTo, None);
        }
        _ => panic!("should be a chat packet"),
    }
}

#[test]
fn chat_serializes() {
    let id = Uuid::new_v4();

    let val = Packet::Chat(ChatMessage {
        id,
        inReplyTo: None,
        message: String::from("message"),
        user: String::from("test user"),
        directMessageTo: None,
        sent: 16782697219,
    });

    let parts: Vec<String> = vec![
        format!("\"id\":\"{}\"", id.to_hyphenated()),
        String::from("\"message\":\"message\""),
        String::from("\"user\":\"test user\""),
        String::from("\"sent\":16782697219"),
    ];

    let mut ser_val = String::from_utf8(val.into_bytes()).unwrap();

    for part in parts {
        assert_ne!(None, ser_val.find(&part));
        ser_val = ser_val.replace(&part, "");
    }

    let re = regex::Regex::new(r"[\{\},\s]+").unwrap();
    assert!(re.is_match(&ser_val));
}

#[test]
fn chat_from_bytes_reverts_into_bytes() {
    let original = Packet::Chat(ChatMessage {
        id: Uuid::new_v4(),
        inReplyTo: None,
        message: String::from("test message"),
        user: String::from("test user"),
        directMessageTo: None,
        sent: i64::try_from(
            std::time::SystemTime::now()
                .duration_since(std::time::SystemTime::UNIX_EPOCH)
                .unwrap()
                .as_secs(),
        )
        .expect("timestamp doesn't fint i64"),
    });

    let bytes = original.into_bytes();
    let str = String::from_utf8(bytes.clone()).unwrap();
    println!("Data: {str}");
    let packet = Packet::from_bytes(&bytes).unwrap();

    match packet {
        Packet::Chat(p) => match original {
            Packet::Chat(o) => {
                assert_eq!(p.id, o.id);
                assert_eq!(p.inReplyTo, o.inReplyTo);
                assert_eq!(p.message, o.message);
                assert_eq!(p.user, o.user);
                assert_eq!(p.sent, o.sent);
                assert_eq!(p.directMessageTo, o.directMessageTo);
            }
            _ => panic!("should be a chat packet"),
        },
        _ => panic!("should be a chat packet"),
    }
}

#[test]
fn every_variant_round_trips() {
    let chat = Packet::Chat(ChatMessage {
        id: Uuid::parse("d4986bec-8026-462a-9a7a-f04eebcf7612").unwrap(),
        inReplyTo: Some(Uuid::parse("d4986bec-8026-462b-8a7a-f04dfbcf1115").unwrap()),
        message: String::from("a \"quoted\" line\nwith control\tbytes and b\u{e5}rs"),
        user: String::from("telemakos"),
        directMessageTo: Some(String::from("penelope")),
        sent: 16782697319,
    });
    let cases = vec![
        Packet::Error {
            error: String::from("broke"),
            clientshutdown: true,
        },
        Packet::Error {
            error: String::from(""),
            clientshutdown: false,
        },
        Packet::Status {
            status: String::from("You joined the channel Pizza"),
        },
        chat,
        Packet::JoinChannel {
            channel: String::from("General"),
        },
        Packet::ChangeTopic {
            topic: String::from("today: nothing"),
        },
        Packet::ListChannels { channels: None },
        Packet::ListChannels {
            channels: Some(vec![]),
        },
        Packet::ListChannels {
            channels: Some(vec![String::from("General 12"), String::from("My Channel 3")]),
        },
    ];
    for p in cases {
        let bytes = p.clone().into_bytes();
        assert_eq!(*bytes.last().unwrap(), b'\n');
        let q = Packet::from_bytes(&bytes).unwrap();
        assert_eq!(p, q);
    }
}

#[test]
fn none_and_empty_channel_lists_stay_distinct() {
    let none = Packet::ListChannels { channels: None }.into_bytes();
    let empty = Packet::ListChannels {
        channels: Some(vec![]),
    }
    .into_bytes();
    assert_ne!(none, empty);
    assert_eq!(
        Packet::from_bytes(&none).unwrap(),
        Packet::ListChannels { channels: None }
    );
    assert_eq!(
        Packet::from_bytes(&empty).unwrap(),
        Packet::ListChannels {
            channels: Some(vec![])
        }
    );
}

#[test]
fn decode_reports_each_failure() {
    assert_eq!(
        Packet::from_bytes(b"not json at all"),
        Err(DecodeError::MalformedJson)
    );
    assert_eq!(
        Packet::from_bytes(b"{\"type\":9,\"status\":\"x\"}"),
        Err(DecodeError::UnknownPacketType)
    );
    assert_eq!(
        Packet::from_bytes(b"{\"type\":0}"),
        Err(DecodeError::MissingField)
    );
    assert_eq!(
        Packet::from_bytes(b"{\"status\":\"no tag\"}"),
        Err(DecodeError::MissingField)
    );
    assert_eq!(
        Packet::from_bytes(
            b"{\"type\":1,\"id\":\"oops\",\"message\":\"m\",\"user\":\"u\",\"sent\":1}"
        ),
        Err(DecodeError::InvalidId)
    );
    assert_eq!(
        Packet::from_bytes(
            b"{\"type\":1,\"id\":\"d4986bec-8026-462a-9a7a-f04eebcf7612\",\"message\":\"m\",\"user\":\"u\",\"sent\":9000000000000000000}"
        ),
        Err(DecodeError::InvalidTimestamp)
    );
}

#[test]
fn datetime_accepts_only_valid_timestamps() {
    let mut m = ChatMessage {
        id: Uuid::new_v4(),
        inReplyTo: None,
        message: String::from("m"),
        user: String::from("u"),
        directMessageTo: None,
        sent: 16782697319,
    };
    assert_eq!(m.datetime().unwrap().millis, 16782697319);
    m.sent = i64::MAX;
    assert_eq!(m.datetime(), Err(DecodeError::InvalidTimestamp));
    m.sent = -377_705_116_800_000;
    assert!(m.datetime().is_ok());
    m.sent = -377_705_116_800_001;
    assert!(m.datetime().is_err());
}

#[test]
fn key_order_is_irrelevant() {
    let val = br#"{"sent":16782697219,"user":"telemakos","message":"m","id":"d4986bec-8026-462a-9a7a-f04eebcf7612","type":1}"#;
    match Packet::from_bytes(val).unwrap() {
        Packet::Chat(chat) => {
            assert_eq!(chat.message, "m");
            assert_eq!(chat.user, "telemakos");
            assert_eq!(chat.sent, 16782697219);
        }
        _ => panic!("should be a chat packet"),
    }
}

#[test]
fn the_last_duplicate_member_wins() {
    let val = br#"{"type":0,"status":"a","status":"b"}"#;
    match Packet::from_bytes(val).unwrap() {
        Packet::Status { status } => assert_eq!(status, "b"),
        _ => panic!("should be a status packet"),
    }
}

#[test]
fn leading_zeros_are_malformed() {
    assert_eq!(
        Packet::from_bytes(br#"{"type":007}"#),
        Err(DecodeError::MalformedJson)
    );
    assert_eq!(
        Packet::from_bytes(br#"{"type":0}"#),
        Err(DecodeError::MissingField)
    );
}

#[test]
fn surrogate_pairs_decode() {
    let val = br#"{"type":0,"status":"\ud83d\ude00 ok"}"#;
    match Packet::from_bytes(val).unwrap() {
        Packet::Status { status } => assert_eq!(status, "\u{1f600} ok"),
        _ => panic!("should be a status packet"),
    }
    assert_eq!(
        Packet::from_bytes(br#"{"type":0,"status":"\ud83d oops"}"#),
        Err(DecodeError::MalformedJson)
    );
    assert_eq!(
        Packet::from_bytes(br#"{"type":0,"status":"\ude00 oops"}"#),
        Err(DecodeError::MalformedJson)
    );
}

#[test]
fn escaped_strings_decode() {
    let val = b"{\"type\":0,\"status\":\"\\u0041B \\\"q\\\" \\n\\t end\"}";
    match Packet::from_bytes(val).unwrap() {
        Packet::Status { status } => assert_eq!(status, "AB \"q\" \n\t end"),
        _ => panic!("should be a status packet"),
    }
}

#[test]
fn uuid_text_round_trips() {
    let u = Uuid {
        value: 0xd4986bec_8026_462a_9a7a_f04eebcf7612u128,
    };
    let text = u.to_hyphenated();
    assert_eq!(text, "d4986bec-8026-462a-9a7a-f04eebcf7612");
    assert_eq!(Uuid::parse(&text), Some(u));
    assert_eq!(Uuid::parse("D4986BEC-8026-462A-9A7A-F04EEBCF7612"), Some(u));
    assert_eq!(Uuid::parse("d4986bec-8026-462a-9a7af04eebcf76123"), None);
    assert_eq!(Uuid::parse("zzzzzzzz-8026-462a-9a7a-f04eebcf7612"), None);
}

#[test]
fn fresh_ids_carry_the_version_bits() {
    let id = Uuid::new_v4();
    assert_eq!((id.value >> 76) & 0xf, 4);
    assert_eq!((id.value >> 62) & 0x3, 2);
    assert_ne!(Uuid::new_v4(), Uuid::new_v4());
}
