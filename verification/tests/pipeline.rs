use talks::api::{authenticate, health_handler, register_handler, visible_talks, AuthStatus,
    AuthenticateRequest, ClientAddr};
use talks::events::{process_event, send_events, EventRequest, EventResponse};
use talks::handler::handle_frame;
use talks::model::TalkType;
use talks::registry::{ClientRegistry, Sender};
use talks::store::TalkStore;

const SECRET: &str = "conway";

#[test]
fn register_pre_authenticates_by_address_range() {
    let mut reg = ClientRegistry::new();
    let inside = register_handler(
        Some(ClientAddr::V4 { octets: (128, 153, 4, 9) }),
        &mut reg,
    );
    assert!(inside.authenticated);
    let outside = register_handler(
        Some(ClientAddr::V4 { octets: (127, 0, 0, 1) }),
        &mut reg,
    );
    assert!(!outside.authenticated);
    let v6_inside = register_handler(
        Some(ClientAddr::V6 { segments: (0x2605, 0x6480, 0xaaaa, 0xc051) }),
        &mut reg,
    );
    assert!(v6_inside.authenticated);
    let v6_outside = register_handler(
        Some(ClientAddr::V6 { segments: (0x2605, 0x6480, 0xaaaa, 0xc052) }),
        &mut reg,
    );
    assert!(!v6_outside.authenticated);
    let unknown = register_handler(None, &mut reg);
    assert!(!unknown.authenticated);
    assert_ne!(inside.id, outside.id);
}

#[test]
fn authenticate_with_wrong_credential_is_forbidden() {
    let mut reg = ClientRegistry::new();
    let r = register_handler(None, &mut reg);
    let verdict = authenticate(
        AuthenticateRequest { id: r.id, password: "wrong".to_string() },
        &mut reg,
        SECRET,
    );
    assert_eq!(verdict, AuthStatus::Forbidden);
    assert!(!reg.is_authenticated(r.id));
}

#[test]
fn authenticate_with_unknown_id_is_rejected() {
    let mut reg = ClientRegistry::new();
    let verdict = authenticate(
        AuthenticateRequest { id: 999, password: SECRET.to_string() },
        &mut reg,
        SECRET,
    );
    assert_eq!(verdict, AuthStatus::UnknownId);
}

#[test]
fn authenticate_with_right_credential_raises_the_flag() {
    let mut reg = ClientRegistry::new();
    let r = register_handler(None, &mut reg);
    let verdict = authenticate(
        AuthenticateRequest { id: r.id, password: SECRET.to_string() },
        &mut reg,
        SECRET,
    );
    assert_eq!(verdict, AuthStatus::Accepted);
    assert!(reg.is_authenticated(r.id));
}

#[test]
fn unauthenticated_hide_frame_mutates_nothing_and_reaches_nobody() {
    let mut reg = ClientRegistry::new();
    let mut db = TalkStore::new();
    let id = db
        .create_talk(talks::model::CreateTalk {
            name: "t".to_string(),
            talk_type: TalkType::ForumTopic,
            description: String::new(),
            is_visible: true,
        })
        .unwrap();
    let r = register_handler(None, &mut reg);
    assert!(reg.attach_sender(r.id, Sender { channel: 1 }));
    let out = handle_frame(&reg, r.id, "{\"event\":\"Hide\",\"id\":7}", &mut db);
    assert!(out.is_none());
    // no store mutation: the card is still visible
    let all = db.list_all_talks().unwrap();
    assert_eq!(all.len(), 1);
    assert!(all[0].is_visible);
    let _ = id;
}

#[test]
fn hide_of_an_absent_id_still_broadcasts_hide() {
    let mut reg = ClientRegistry::new();
    let mut db = TalkStore::new();
    let r = register_handler(None, &mut reg);
    assert!(reg.attach_sender(r.id, Sender { channel: 1 }));
    assert_eq!(
        authenticate(
            AuthenticateRequest { id: r.id, password: SECRET.to_string() },
            &mut reg,
            SECRET,
        ),
        AuthStatus::Accepted
    );
    let out = handle_frame(&reg, r.id, "{\"event\":\"Hide\",\"id\":7}", &mut db);
    let (msg, recipients) = out.expect("an absent id is a no-op success, never a NOP");
    assert_eq!(msg, "{\"event\":\"Hide\",\"id\":7}");
    assert_eq!(recipients, vec![Sender { channel: 1 }]);
}

#[test]
fn malformed_frame_is_dropped_silently() {
    let mut reg = ClientRegistry::new();
    let mut db = TalkStore::new();
    let r = register_handler(None, &mut reg);
    reg.set_authenticated(r.id).unwrap();
    let out = handle_frame(&reg, r.id, "not json at all", &mut db);
    assert!(out.is_none());
    assert!(db.list_all_talks().unwrap().is_empty());
}

#[test]
fn create_flows_end_to_end_and_reaches_every_live_sender() {
    let mut reg = ClientRegistry::new();
    let mut db = TalkStore::new();
    // the writer registers and authenticates with the right credential
    let writer = register_handler(None, &mut reg);
    assert!(reg.attach_sender(writer.id, Sender { channel: 1 }));
    assert_eq!(
        authenticate(
            AuthenticateRequest { id: writer.id, password: SECRET.to_string() },
            &mut reg,
            SECRET,
        ),
        AuthStatus::Accepted
    );
    // a lurker is connected too
    let lurker = register_handler(None, &mut reg);
    assert!(reg.attach_sender(lurker.id, Sender { channel: 2 }));
    // and one registered client never finished its upgrade
    let _stale = register_handler(None, &mut reg);

    let out = handle_frame(
        &reg,
        writer.id,
        "{\"event\":\"Create\",\"name\":\"Rust 101\",\"talk_type\":\"lightning talk\",\"desc\":\"intro\"}",
        &mut db,
    );
    let (msg, recipients) = out.expect("an authenticated create is announced");
    assert_eq!(
        msg,
        "{\"event\":\"Show\",\"id\":1,\"name\":\"Rust 101\",\"talk_type\":\"lightning talk\",\"desc\":\"intro\"}"
    );
    // everyone with a live sender gets it, the originator included
    assert_eq!(recipients, vec![Sender { channel: 1 }, Sender { channel: 2 }]);
    // and the store now holds the card
    let visible = db.list_visible_talks().unwrap();
    assert_eq!(visible.len(), 1);
    assert_eq!(visible[0].name, "Rust 101");
    assert_eq!(visible[0].talk_type, TalkType::LightningTalk);
}

#[test]
fn process_event_maps_create_to_show() {
    let mut db = TalkStore::new();
    let resp = process_event(
        EventRequest::Create {
            name: "n".to_string(),
            talk_type: TalkType::Announcement,
            desc: "d".to_string(),
        },
        &mut db,
    );
    assert_eq!(
        resp,
        EventResponse::Show {
            id: 1,
            name: "n".to_string(),
            talk_type: TalkType::Announcement,
            description: "d".to_string(),
        }
    );
}

#[test]
fn send_events_suppresses_nop() {
    let mut reg = ClientRegistry::new();
    let id = reg.register(false);
    assert!(reg.attach_sender(id, Sender { channel: 5 }));
    assert!(send_events(&reg, &EventResponse::NOP).is_none());
    let (msg, recipients) = send_events(&reg, &EventResponse::Hide { id: 3 }).unwrap();
    assert_eq!(msg, "{\"event\":\"Hide\",\"id\":3}");
    assert_eq!(recipients, vec![Sender { channel: 5 }]);
}

#[test]
fn health_line_counts_connections() {
    let mut reg = ClientRegistry::new();
    assert_eq!(health_handler(&reg), "Open Connections: 0\n");
    reg.register(false);
    reg.register(false);
    assert_eq!(health_handler(&reg), "Open Connections: 2\n");
}

#[test]
fn visible_talks_lists_only_visible_cards_as_json() {
    let mut db = TalkStore::new();
    let a = db
        .create_talk(talks::model::CreateTalk {
            name: "kept".to_string(),
            talk_type: TalkType::ForumTopic,
            description: "d".to_string(),
            is_visible: true,
        })
        .unwrap();
    let b = db
        .create_talk(talks::model::CreateTalk {
            name: "hidden".to_string(),
            talk_type: TalkType::ForumTopic,
            description: String::new(),
            is_visible: true,
        })
        .unwrap();
    db.hide_talk(b).unwrap();
    assert_eq!(
        visible_talks(&db),
        "[{\"id\":1,\"name\":\"kept\",\"talk_type\":\"forum topic\",\"description\":\"d\",\"is_visible\":true}]"
    );
    let _ = a;
}
