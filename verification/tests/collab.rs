use lau_collab::{CollabEvent, CollabMatcher, Permission, SessionLog, SharedWorld};

// -- Permission tests --

#[test]
fn permission_default_is_viewer() {
    assert_eq!(Permission::default(), Permission::Viewer);
}

#[test]
fn permission_equality() {
    assert_eq!(Permission::Owner, Permission::Owner);
    assert_ne!(Permission::Editor, Permission::Viewer);
}

// -- SharedWorld tests --

#[test]
fn world_new_owner_is_member() {
    let w = SharedWorld::new("w1", "alice");
    assert!(w.is_member("alice"));
    assert_eq!(w.permission("alice"), Permission::Owner);
    assert_eq!(w.member_count(), 1);
}

#[test]
fn world_invite_editor() {
    let mut w = SharedWorld::new("w1", "alice");
    w.invite("bob".into(), Permission::Editor);
    assert!(w.is_member("bob"));
    assert_eq!(w.permission("bob"), Permission::Editor);
    assert_eq!(w.member_count(), 2);
}

#[test]
fn world_invite_viewer() {
    let mut w = SharedWorld::new("w1", "alice");
    w.invite("carol".into(), Permission::Viewer);
    assert!(w.is_member("carol"));
    assert!(!w.can_build("carol"));
}

#[test]
fn world_remove_collaborator() {
    let mut w = SharedWorld::new("w1", "alice");
    w.invite("bob".into(), Permission::Editor);
    assert!(w.remove("bob"));
    assert!(!w.is_member("bob"));
    assert_eq!(w.member_count(), 1);
}

#[test]
fn world_cannot_remove_owner() {
    let mut w = SharedWorld::new("w1", "alice");
    assert!(!w.remove("alice"));
    assert!(w.is_member("alice"));
}

#[test]
fn world_remove_nonexistent() {
    let mut w = SharedWorld::new("w1", "alice");
    assert!(!w.remove("ghost"));
}

#[test]
fn world_can_build_owner_and_editor() {
    let mut w = SharedWorld::new("w1", "alice");
    w.invite("bob".into(), Permission::Editor);
    w.invite("carol".into(), Permission::Viewer);
    assert!(w.can_build("alice"));
    assert!(w.can_build("bob"));
    assert!(!w.can_build("carol"));
}

#[test]
fn world_nonmember_is_viewer() {
    let w = SharedWorld::new("w1", "alice");
    assert_eq!(w.permission("nobody"), Permission::Viewer);
    assert!(!w.can_build("nobody"));
}

// -- SessionLog tests --

#[test]
fn log_record_and_count() {
    let mut log = SessionLog::new(0, 100);
    log.record(CollabEvent::PlayerJoined {
        player: "alice".into(),
        world: "w1".into(),
    });
    log.record(CollabEvent::PlayerJoined {
        player: "bob".into(),
        world: "w1".into(),
    });
    assert_eq!(log.events.len(), 2);
}

#[test]
fn log_participants_dedupes() {
    let mut log = SessionLog::new(0, 100);
    log.record(CollabEvent::PlayerJoined {
        player: "alice".into(),
        world: "w1".into(),
    });
    log.record(CollabEvent::PlayerLeft {
        player: "alice".into(),
        world: "w1".into(),
    });
    log.record(CollabEvent::CoBuild {
        players: vec!["alice".into(), "bob".into()],
        structure: "castle".into(),
        voxels: 500,
    });
    let p = log.participants();
    assert_eq!(p.len(), 2);
    assert!(p.contains(&"alice".to_string()));
    assert!(p.contains(&"bob".to_string()));
}

#[test]
fn log_events_by_type() {
    let mut log = SessionLog::new(0, 100);
    log.record(CollabEvent::PlayerJoined {
        player: "a".into(),
        world: "w".into(),
    });
    log.record(CollabEvent::PlayerJoined {
        player: "b".into(),
        world: "w".into(),
    });
    log.record(CollabEvent::CoBuild {
        players: vec!["a".into()],
        structure: "tower".into(),
        voxels: 10,
    });
    let counts = log.events_by_type();
    assert_eq!(counts.get("PlayerJoined"), Some(&2));
    assert_eq!(counts.get("CoBuild"), Some(&1));
}

#[test]
fn log_empty_summary() {
    let log = SessionLog::new(0, 100);
    assert!(log.summary().contains("nobody came"));
}

#[test]
fn log_summary_mentions_all_event_types() {
    let mut log = SessionLog::new(0, 60);
    log.record(CollabEvent::PlayerJoined {
        player: "alice".into(),
        world: "w1".into(),
    });
    log.record(CollabEvent::PlayerLeft {
        player: "bob".into(),
        world: "w1".into(),
    });
    log.record(CollabEvent::CoBuild {
        players: vec!["alice".into(), "carol".into()],
        structure: "rocket".into(),
        voxels: 999,
    });
    log.record(CollabEvent::AgentShared {
        from: "alice".into(),
        to: "carol".into(),
        agent_id: "ag1".into(),
    });
    log.record(CollabEvent::WorldMerged {
        world_a: "w1".into(),
        world_b: "w2".into(),
        result: "w3".into(),
    });
    let s = log.summary();
    assert!(s.contains("joined"));
    assert!(s.contains("headed home"));
    assert!(s.contains("co-build"));
    assert!(s.contains("agent"));
    assert!(s.contains("merged"));
}

#[test]
fn log_agent_shared_participants() {
    let mut log = SessionLog::new(0, 100);
    log.record(CollabEvent::AgentShared {
        from: "alice".into(),
        to: "bob".into(),
        agent_id: "ag1".into(),
    });
    let p = log.participants();
    assert!(p.contains(&"alice".to_string()));
    assert!(p.contains(&"bob".to_string()));
}

#[test]
fn log_world_merged_has_no_participants() {
    let mut log = SessionLog::new(0, 100);
    log.record(CollabEvent::WorldMerged {
        world_a: "w1".into(),
        world_b: "w2".into(),
        result: "w3".into(),
    });
    assert!(log.participants().is_empty());
}

// -- CollabMatcher tests --

#[test]
fn matcher_basic_match() {
    let mut m = CollabMatcher::new();
    m.add_looking("alice".into(), vec!["castles".into(), "space".into()]);
    m.add_looking("bob".into(), vec!["space".into(), "ocean".into()]);
    assert_eq!(m.find_match("alice"), Some("bob".into()));
    assert_eq!(m.find_match("bob"), Some("alice".into()));
}

#[test]
fn matcher_no_match() {
    let mut m = CollabMatcher::new();
    m.add_looking("alice".into(), vec!["castles".into()]);
    m.add_looking("bob".into(), vec!["ocean".into()]);
    assert_eq!(m.find_match("alice"), None);
}

#[test]
fn matcher_self_not_matched() {
    let mut m = CollabMatcher::new();
    m.add_looking("alice".into(), vec!["space".into()]);
    assert_eq!(m.find_match("alice"), None);
}

#[test]
fn matcher_remove() {
    let mut m = CollabMatcher::new();
    m.add_looking("alice".into(), vec!["space".into()]);
    m.add_looking("bob".into(), vec!["space".into()]);
    m.remove_looking("bob");
    assert_eq!(m.find_match("alice"), None);
}

#[test]
fn matcher_not_looking() {
    let m = CollabMatcher::new();
    assert_eq!(m.find_match("nobody"), None);
}
