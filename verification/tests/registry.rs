use talks::registry::{ClientRegistry, Sender};

#[test]
fn register_issues_distinct_ids_and_lookup_succeeds() {
    let mut reg = ClientRegistry::new();
    let mut ids = Vec::new();
    for _ in 0..10 {
        assert!(reg.can_register());
        let id = reg.register(false);
        assert!(reg.contains(id));
        ids.push(id);
    }
    for i in 0..ids.len() {
        for j in 0..ids.len() {
            if i != j {
                assert_ne!(ids[i], ids[j]);
            }
        }
    }
    assert_eq!(reg.count(), 10);
}

#[test]
fn removed_id_cannot_be_reattached() {
    let mut reg = ClientRegistry::new();
    let id = reg.register(false);
    assert!(reg.attach_sender(id, Sender { channel: 1 }));
    reg.remove(id);
    assert!(!reg.contains(id));
    assert!(!reg.attach_sender(id, Sender { channel: 2 }));
    assert!(!reg.contains(id));
}

#[test]
fn remove_is_idempotent() {
    let mut reg = ClientRegistry::new();
    let id = reg.register(true);
    reg.remove(id);
    reg.remove(id);
    assert_eq!(reg.count(), 0);
}

#[test]
fn ids_are_not_reused_after_removal() {
    let mut reg = ClientRegistry::new();
    let a = reg.register(false);
    reg.remove(a);
    let b = reg.register(false);
    assert_ne!(a, b);
}

#[test]
fn snapshot_holds_exactly_the_live_senders() {
    let mut reg = ClientRegistry::new();
    let a = reg.register(false);
    let b = reg.register(false);
    let c = reg.register(false);
    assert!(reg.attach_sender(a, Sender { channel: 10 }));
    assert!(reg.attach_sender(c, Sender { channel: 30 }));
    let snap = reg.snapshot_live_senders();
    assert_eq!(snap.len(), 2);
    assert!(snap.contains(&Sender { channel: 10 }));
    assert!(snap.contains(&Sender { channel: 30 }));
    // b never connected; a removed entry must not appear either
    reg.remove(a);
    let snap2 = reg.snapshot_live_senders();
    assert_eq!(snap2, vec![Sender { channel: 30 }]);
    let _ = b;
}

#[test]
fn authentication_flag_is_gated_on_presence() {
    let mut reg = ClientRegistry::new();
    let id = reg.register(false);
    assert!(!reg.is_authenticated(id));
    assert!(reg.set_authenticated(id).is_ok());
    assert!(reg.is_authenticated(id));
    reg.remove(id);
    assert!(!reg.is_authenticated(id));
    assert!(reg.set_authenticated(id).is_err());
}

#[test]
fn gc_gives_a_senderless_entry_exactly_one_grace_sweep() {
    // register at t=0: grace intact, no sender
    let mut reg = ClientRegistry::new();
    let a = reg.register(false);
    // sweep at t=60s: grace spent, entry kept
    let removed = reg.collect_garbage();
    assert_eq!(removed, 0);
    assert!(reg.contains(a));
    // sweep at t=120s: entry removed
    let removed = reg.collect_garbage();
    assert_eq!(removed, 1);
    assert!(!reg.contains(a));
}

#[test]
fn gc_never_touches_entries_with_a_sender() {
    let mut reg = ClientRegistry::new();
    let a = reg.register(false);
    let b = reg.register(false);
    assert!(reg.attach_sender(a, Sender { channel: 7 }));
    assert_eq!(reg.collect_garbage(), 0);
    assert_eq!(reg.collect_garbage(), 1);
    assert!(reg.contains(a));
    assert!(!reg.contains(b));
    let snap = reg.snapshot_live_senders();
    assert_eq!(snap, vec![Sender { channel: 7 }]);
}

#[test]
fn gc_mark_then_remove_matches_one_sweep() {
    let mut reg = ClientRegistry::new();
    let a = reg.register(false);
    let b = reg.register(false);
    assert!(reg.attach_sender(b, Sender { channel: 2 }));
    // first pass spends grace, marks nothing yet
    let marked = reg.gc_mark();
    assert!(marked.is_empty());
    // second pass marks the senderless entry
    let marked = reg.gc_mark();
    assert_eq!(marked, vec![a]);
    for id in marked {
        reg.remove(id);
    }
    assert!(!reg.contains(a));
    assert!(reg.contains(b));
}

#[test]
fn attach_after_gc_grace_keeps_the_entry_alive() {
    let mut reg = ClientRegistry::new();
    let a = reg.register(false);
    assert_eq!(reg.collect_garbage(), 0);
    // the upgrade lands within the grace interval
    assert!(reg.attach_sender(a, Sender { channel: 1 }));
    assert_eq!(reg.collect_garbage(), 0);
    assert!(reg.contains(a));
}
