use talks::codec::{decode_request, encode_request, encode_response, encode_talk_list, str_eq};
use talks::events::{EventRequest, EventResponse};
use talks::model::{Talk, TalkType};

#[test]
fn decode_hide_frame() {
    let got = decode_request("{\"event\":\"Hide\",\"id\":7}");
    assert_eq!(got, Some(EventRequest::Hide { id: 7 }));
}

#[test]
fn decode_negative_and_zero_ids() {
    assert_eq!(
        decode_request("{\"event\":\"Hide\",\"id\":-12}"),
        Some(EventRequest::Hide { id: -12 })
    );
    assert_eq!(
        decode_request("{\"event\":\"Hide\",\"id\":0}"),
        Some(EventRequest::Hide { id: 0 })
    );
    assert_eq!(
        decode_request("{\"event\":\"Hide\",\"id\":2147483647}"),
        Some(EventRequest::Hide { id: i32::MAX })
    );
    assert_eq!(
        decode_request("{\"event\":\"Hide\",\"id\":-2147483648}"),
        Some(EventRequest::Hide { id: i32::MIN })
    );
}

#[test]
fn decode_rejects_out_of_range_ids() {
    assert_eq!(decode_request("{\"event\":\"Hide\",\"id\":2147483648}"), None);
    assert_eq!(decode_request("{\"event\":\"Hide\",\"id\":-2147483649}"), None);
    assert_eq!(decode_request("{\"event\":\"Hide\",\"id\":99999999999999999999}"), None);
}

#[test]
fn decode_create_frame() {
    let got = decode_request(
        "{\"event\":\"Create\",\"name\":\"Rust 101\",\"talk_type\":\"lightning talk\",\"desc\":\"intro\"}",
    );
    assert_eq!(
        got,
        Some(EventRequest::Create {
            name: "Rust 101".to_string(),
            talk_type: TalkType::LightningTalk,
            desc: "intro".to_string(),
        })
    );
}

#[test]
fn decode_create_with_escapes() {
    let got = decode_request(
        "{\"event\":\"Create\",\"name\":\"a\\\"b\\\\c\\nd\",\"talk_type\":\"announcement\",\"desc\":\"tab\\there\"}",
    );
    assert_eq!(
        got,
        Some(EventRequest::Create {
            name: "a\"b\\c\nd".to_string(),
            talk_type: TalkType::Announcement,
            desc: "tab\there".to_string(),
        })
    );
}

#[test]
fn decode_unicode_escape_of_control_chars() {
    let got = decode_request("{\"event\":\"Hide\",\"id\":3}");
    assert!(got.is_some());
    let got = decode_request(
        "{\"event\":\"Create\",\"name\":\"a\\u0001b\",\"talk_type\":\"forum topic\",\"desc\":\"\"}",
    );
    assert_eq!(
        got,
        Some(EventRequest::Create {
            name: "a\u{1}b".to_string(),
            talk_type: TalkType::ForumTopic,
            desc: String::new(),
        })
    );
}

#[test]
fn decode_rejects_malformed_frames() {
    assert_eq!(decode_request(""), None);
    assert_eq!(decode_request("hello"), None);
    assert_eq!(decode_request("{\"event\":\"Hide\",\"id\":}"), None);
    assert_eq!(decode_request("{\"event\":\"Hide\",\"id\":7"), None);
    assert_eq!(decode_request("{\"event\":\"Hide\",\"id\":7} "), None);
    assert_eq!(decode_request("{\"event\":\"Delete\",\"id\":7}"), None);
    assert_eq!(
        decode_request("{\"event\":\"Create\",\"name\":\"x\",\"talk_type\":\"keynote\",\"desc\":\"y\"}"),
        None
    );
    assert_eq!(decode_request("{\"event\":\"Create\",\"name\":\"x\"}"), None);
}

#[test]
fn encode_request_round_trips_through_decode() {
    let cases = vec![
        EventRequest::Hide { id: 7 },
        EventRequest::Hide { id: -1 },
        EventRequest::Hide { id: i32::MIN },
        EventRequest::Create {
            name: "plain".to_string(),
            talk_type: TalkType::ProjectUpdate,
            desc: "text".to_string(),
        },
        EventRequest::Create {
            name: "quotes \" and \\ slashes \n".to_string(),
            talk_type: TalkType::AfterMeetingSlot,
            desc: "control \u{2} char".to_string(),
        },
        EventRequest::Create {
            name: String::new(),
            talk_type: TalkType::ForumTopic,
            desc: String::new(),
        },
    ];
    for e in cases {
        let wire = encode_request(&e);
        assert_eq!(decode_request(&wire), Some(e));
    }
}

#[test]
fn encode_show_response_exactly() {
    let resp = EventResponse::Show {
        id: 5,
        name: "Rust 101".to_string(),
        talk_type: TalkType::LightningTalk,
        description: "intro".to_string(),
    };
    let wire = encode_response(&resp).unwrap();
    assert_eq!(
        wire,
        "{\"event\":\"Show\",\"id\":5,\"name\":\"Rust 101\",\"talk_type\":\"lightning talk\",\"desc\":\"intro\"}"
    );
}

#[test]
fn encode_hide_response_exactly() {
    let wire = encode_response(&EventResponse::Hide { id: 42 }).unwrap();
    assert_eq!(wire, "{\"event\":\"Hide\",\"id\":42}");
}

#[test]
fn nop_is_never_encoded() {
    assert_eq!(encode_response(&EventResponse::NOP), None);
}

#[test]
fn encode_talk_list_exactly() {
    let talks = vec![
        Talk {
            id: 1,
            name: "a\"quote".to_string(),
            talk_type: TalkType::ForumTopic,
            description: "d1".to_string(),
            is_visible: true,
        },
        Talk {
            id: 2,
            name: "b".to_string(),
            talk_type: TalkType::Announcement,
            description: String::new(),
            is_visible: false,
        },
    ];
    assert_eq!(
        encode_talk_list(&talks),
        "[{\"id\":1,\"name\":\"a\\\"quote\",\"talk_type\":\"forum topic\",\"description\":\"d1\",\"is_visible\":true},{\"id\":2,\"name\":\"b\",\"talk_type\":\"announcement\",\"description\":\"\",\"is_visible\":false}]"
    );
    assert_eq!(encode_talk_list(&Vec::new()), "[]");
}

#[test]
fn str_eq_compares_text() {
    assert!(str_eq("conway", "conway"));
    assert!(!str_eq("conway", "Conway"));
    assert!(!str_eq("conway", "conwa"));
    assert!(str_eq("", ""));
}
