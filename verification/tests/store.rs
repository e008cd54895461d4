use talks::model::{CreateTalk, TalkType};
use talks::store::TalkStore;

fn card(name: &str, talk_type: TalkType, desc: &str) -> CreateTalk {
    CreateTalk {
        name: name.to_string(),
        talk_type,
        description: desc.to_string(),
        is_visible: true,
    }
}

#[test]
fn create_assigns_monotonic_ids_from_one() {
    let mut db = TalkStore::new();
    let a = db.create_talk(card("a", TalkType::ForumTopic, "x")).unwrap();
    let b = db.create_talk(card("b", TalkType::ForumTopic, "y")).unwrap();
    let c = db.create_talk(card("c", TalkType::Announcement, "z")).unwrap();
    assert_eq!((a, b, c), (1, 2, 3));
}

#[test]
fn hide_reports_rows_changed_and_never_fails() {
    let mut db = TalkStore::new();
    let id = db.create_talk(card("a", TalkType::ForumTopic, "x")).unwrap();
    assert_eq!(db.hide_talk(id), Ok(1));
    // hiding an already hidden card still succeeds
    assert_eq!(db.hide_talk(id), Ok(1));
    // hiding an id the store does not hold is a no-op success
    assert_eq!(db.hide_talk(999), Ok(0));
}

#[test]
fn hidden_cards_leave_the_visible_listing() {
    let mut db = TalkStore::new();
    let a = db.create_talk(card("a", TalkType::ForumTopic, "x")).unwrap();
    let b = db.create_talk(card("b", TalkType::ForumTopic, "y")).unwrap();
    db.hide_talk(a).unwrap();
    let visible = db.list_visible_talks().unwrap();
    assert_eq!(visible.len(), 1);
    assert_eq!(visible[0].id, b);
    assert!(visible[0].is_visible);
    // the card is still in the store, hidden
    let all = db.list_all_talks().unwrap();
    assert_eq!(all.len(), 2);
    assert!(!all[0].is_visible);
}

#[test]
fn unhide_restores_visibility() {
    let mut db = TalkStore::new();
    let a = db.create_talk(card("a", TalkType::ForumTopic, "x")).unwrap();
    db.hide_talk(a).unwrap();
    assert_eq!(db.unhide_talk(a), Ok(1));
    assert_eq!(db.list_visible_talks().unwrap().len(), 1);
}

#[test]
fn delete_drops_the_card() {
    let mut db = TalkStore::new();
    let a = db.create_talk(card("a", TalkType::ForumTopic, "x")).unwrap();
    assert_eq!(db.delete_talk(a), Ok(1));
    assert_eq!(db.delete_talk(a), Ok(0));
    assert!(db.list_all_talks().unwrap().is_empty());
}

#[test]
fn visible_listing_groups_by_category_in_creation_order() {
    let mut db = TalkStore::new();
    let a = db.create_talk(card("late-forum", TalkType::ForumTopic, "")).unwrap();
    let b = db.create_talk(card("lightning", TalkType::LightningTalk, "")).unwrap();
    let c = db.create_talk(card("early-forum", TalkType::ForumTopic, "")).unwrap();
    let d = db.create_talk(card("slot", TalkType::AfterMeetingSlot, "")).unwrap();
    let visible = db.list_visible_talks().unwrap();
    let ids: Vec<i32> = visible.iter().map(|t| t.id).collect();
    // forum topics first (creation order within), then lightning, then the slot
    assert_eq!(ids, vec![a, c, b, d]);
}

#[test]
fn talk_type_codes_round_trip() {
    let all = [
        TalkType::ForumTopic,
        TalkType::LightningTalk,
        TalkType::ProjectUpdate,
        TalkType::Announcement,
        TalkType::AfterMeetingSlot,
    ];
    for (i, t) in all.iter().enumerate() {
        assert_eq!(t.code(), i as i32);
        assert_eq!(TalkType::from_code(i as i32), Some(*t));
    }
    assert_eq!(TalkType::from_code(5), None);
    assert_eq!(TalkType::from_code(-1), None);
}

#[test]
fn talk_type_names() {
    assert_eq!(TalkType::ForumTopic.name(), "forum topic");
    assert_eq!(TalkType::LightningTalk.name(), "lightning talk");
    assert_eq!(TalkType::ProjectUpdate.name(), "project update");
    assert_eq!(TalkType::Announcement.name(), "announcement");
    assert_eq!(TalkType::AfterMeetingSlot.name(), "after meeting slot");
}
