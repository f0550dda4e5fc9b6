use lau_collab::{CollabEvent, CollabMatcher, Permission, SessionLog, SharedWorld};

fn joined(player: &str) -> CollabEvent {
    CollabEvent::PlayerJoined { player: player.into(), world: "w".into() }
}

// -- SharedWorld --

#[test]
fn world_accessors_report_construction() {
    let w = SharedWorld::new("w7", "alice");
    assert_eq!(w.world_id(), "w7");
    assert_eq!(w.owner(), "alice");
    assert_eq!(w.collaborators().to_vec(), vec![("alice".to_string(), Permission::Owner)]);
}

#[test]
fn world_owner_stays_member_after_every_operation() {
    let mut w = SharedWorld::new("w1", "alice");
    w.invite("bob".into(), Permission::Editor);
    w.invite("alice".into(), Permission::Viewer);
    assert!(!w.remove("alice"));
    w.remove("bob");
    assert!(w.is_member("alice"));
    assert_eq!(w.member_count(), 1);
}

#[test]
fn world_invite_replaces_permission() {
    let mut w = SharedWorld::new("w1", "alice");
    w.invite("bob".into(), Permission::Viewer);
    assert!(!w.can_build("bob"));
    w.invite("bob".into(), Permission::Editor);
    assert_eq!(w.permission("bob"), Permission::Editor);
    assert!(w.can_build("bob"));
    assert_eq!(w.member_count(), 2);
}

#[test]
fn world_owner_can_be_downgraded_by_invite() {
    let mut w = SharedWorld::new("w1", "alice");
    w.invite("alice".into(), Permission::Viewer);
    assert!(w.is_member("alice"));
    assert_eq!(w.permission("alice"), Permission::Viewer);
    assert!(!w.can_build("alice"));
    assert_eq!(w.member_count(), 1);
}

#[test]
fn world_invite_then_remove_restores_members() {
    let mut w = SharedWorld::new("w1", "alice");
    w.invite("carol".into(), Permission::Editor);
    let before: Vec<(String, Permission)> = w.collaborators().to_vec();
    w.invite("bob".into(), Permission::Owner);
    assert!(w.remove("bob"));
    assert_eq!(w.collaborators().to_vec(), before);
    assert!(!w.remove("bob"));
}

#[test]
fn world_remove_keeps_other_members() {
    let mut w = SharedWorld::new("w1", "alice");
    w.invite("bob".into(), Permission::Editor);
    w.invite("carol".into(), Permission::Viewer);
    w.invite("dave".into(), Permission::Editor);
    assert!(w.remove("carol"));
    assert!(w.is_member("bob"));
    assert!(w.is_member("dave"));
    assert_eq!(w.permission("dave"), Permission::Editor);
    assert_eq!(w.member_count(), 3);
}

#[test]
fn world_ids_are_compared_exactly() {
    let mut w = SharedWorld::new("w1", "alice");
    w.invite("Bob".into(), Permission::Editor);
    assert!(!w.is_member("bob"));
    assert!(!w.is_member("alic"));
    assert!(!w.remove("Alice"));
    assert_eq!(w.member_count(), 2);
}

// -- SessionLog --

#[test]
fn log_participants_in_first_appearance_order() {
    let mut log = SessionLog::new(0, 10);
    log.record(CollabEvent::AgentShared { from: "carol".into(), to: "alice".into(), agent_id: "x".into() });
    log.record(CollabEvent::CoBuild {
        players: vec!["bob".into(), "carol".into(), "bob".into()],
        structure: "s".into(),
        voxels: 1,
    });
    log.record(joined("alice"));
    assert_eq!(log.participants(), vec!["carol".to_string(), "alice".to_string(), "bob".to_string()]);
}

#[test]
fn log_record_keeps_participants_prefix() {
    let mut log = SessionLog::new(0, 10);
    log.record(joined("zed"));
    log.record(joined("amy"));
    let before = log.participants();
    log.record(CollabEvent::CoBuild { players: vec!["amy".into(), "kim".into()], structure: "s".into(), voxels: 3 });
    let after = log.participants();
    assert_eq!(&after[..before.len()], &before[..]);
    assert_eq!(after.len(), 3);
}

#[test]
fn log_counts_total_number_of_events() {
    let mut log = SessionLog::new(0, 10);
    log.record(joined("a"));
    log.record(CollabEvent::PlayerLeft { player: "a".into(), world: "w".into() });
    log.record(CollabEvent::WorldMerged { world_a: "1".into(), world_b: "2".into(), result: "3".into() });
    log.record(joined("b"));
    let counts = log.events_by_type();
    let total: usize = counts.entries().iter().map(|(_, n)| *n).sum();
    assert_eq!(total, log.events.len());
    assert_eq!(counts.len(), 3);
    assert_eq!(counts.get("PlayerJoined"), Some(&2));
    assert_eq!(counts.get("PlayerLeft"), Some(&1));
    assert_eq!(counts.get("WorldMerged"), Some(&1));
    assert_eq!(counts.get("AgentShared"), None);
    assert_eq!(counts.get("Nonsense"), None);
}

#[test]
fn log_record_adds_one_to_its_tag() {
    let mut log = SessionLog::new(0, 10);
    log.record(joined("a"));
    let before = log.events_by_type();
    log.record(joined("b"));
    let after = log.events_by_type();
    assert_eq!(before.get("PlayerJoined"), Some(&1));
    assert_eq!(after.get("PlayerJoined"), Some(&2));
    assert_eq!(after.len(), before.len());
}

#[test]
fn log_empty_has_no_counts() {
    let log = SessionLog::new(5, 5);
    assert_eq!(log.events_by_type().len(), 0);
    assert!(log.participants().is_empty());
}

#[test]
fn log_empty_summary_text() {
    let log = SessionLog::new(3, 4);
    assert_eq!(log.summary(), "An empty session \u{2014} the world waited quietly, but nobody came.");
}

#[test]
fn log_summary_exact_text() {
    let mut log = SessionLog::new(120, 60);
    log.record(joined("alice"));
    log.record(joined("bob"));
    log.record(CollabEvent::CoBuild { players: vec!["bob".into(), "carol".into()], structure: "r".into(), voxels: 9 });
    let expected = "\u{1f31f} Session report (tick 120 \u{2013} 180, 60 ticks):\n\
                    \u{1f6aa} 2 player(s) joined the adventure.\n\
                    \u{1f3d7}\u{fe0f} 1 co-build(s) brought ideas to life!\n\
                    \u{1f465} 3 unique player(s): alice, bob, carol";
    assert_eq!(log.summary(), expected);
}

#[test]
fn log_summary_without_participants() {
    let mut log = SessionLog::new(0, 7);
    log.record(CollabEvent::WorldMerged { world_a: "a".into(), world_b: "b".into(), result: "c".into() });
    assert_eq!(
        log.summary(),
        "\u{1f31f} Session report (tick 0 \u{2013} 7, 7 ticks):\n\u{1f30c} 1 world(s) were merged into something greater!"
    );
}

#[test]
fn log_summary_large_numbers() {
    let mut log = SessionLog::new(9_999_999_990, 10);
    log.record(CollabEvent::AgentShared { from: "x".into(), to: "y".into(), agent_id: "a".into() });
    log.record(CollabEvent::PlayerLeft { player: "x".into(), world: "w".into() });
    let s = log.summary();
    assert!(s.starts_with("\u{1f31f} Session report (tick 9999999990 \u{2013} 10000000000, 10 ticks):\n"));
    assert!(s.contains("\u{1f44b} 1 player(s) headed home."));
    assert!(s.contains("\u{1f916} 1 agent(s) were shared between friends."));
    assert!(s.ends_with("\u{1f465} 2 unique player(s): x, y"));
}

// -- CollabMatcher --

#[test]
fn matcher_match_is_mutual_with_three_players() {
    let mut m = CollabMatcher::default();
    m.add_looking("alice".into(), vec!["art".into()]);
    m.add_looking("bob".into(), vec!["music".into()]);
    m.add_looking("carol".into(), vec!["music".into(), "art".into()]);
    assert_eq!(m.find_match("bob"), Some("carol".into()));
    assert!(m.find_match("carol").is_some());
    assert_eq!(m.find_match("alice"), Some("carol".into()));
}

#[test]
fn matcher_add_looking_replaces_interests() {
    let mut m = CollabMatcher::new();
    m.add_looking("alice".into(), vec!["space".into()]);
    m.add_looking("bob".into(), vec!["space".into()]);
    m.add_looking("bob".into(), vec!["ocean".into()]);
    assert_eq!(m.find_match("alice"), None);
    assert_eq!(m.looking().len(), 2);
}

#[test]
fn matcher_removed_player_is_not_matched_and_finds_nobody() {
    let mut m = CollabMatcher::new();
    m.add_looking("alice".into(), vec!["space".into()]);
    m.add_looking("bob".into(), vec!["space".into()]);
    m.remove_looking("alice");
    assert_eq!(m.find_match("bob"), None);
    assert_eq!(m.find_match("alice"), None);
    m.remove_looking("nobody");
    assert_eq!(m.looking().len(), 1);
}

#[test]
fn matcher_empty_interests_never_match() {
    let mut m = CollabMatcher::new();
    m.add_looking("alice".into(), vec![]);
    m.add_looking("bob".into(), vec!["space".into()]);
    assert_eq!(m.find_match("alice"), None);
    assert_eq!(m.find_match("bob"), None);
}
