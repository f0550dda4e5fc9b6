use vstd::prelude::*;
use crate::text::string_views;

verus! {

/// An event that occurs during a collaboration session.
#[derive(Debug, Clone, PartialEq)]
pub enum CollabEvent {
    PlayerJoined { player: String, world: String },
    PlayerLeft { player: String, world: String },
    CoBuild { players: Vec<String>, structure: String, voxels: usize },
    AgentShared { from: String, to: String, agent_id: String },
    WorldMerged { world_a: String, world_b: String, result: String },
}

impl CollabEvent {
    /// The name of the event's variant, used to group events by type.
    pub open spec fn tag_view(self) -> Seq<char> {
        match self {
            CollabEvent::PlayerJoined { .. } => "PlayerJoined"@,
            CollabEvent::PlayerLeft { .. } => "PlayerLeft"@,
            CollabEvent::CoBuild { .. } => "CoBuild"@,
            CollabEvent::AgentShared { .. } => "AgentShared"@,
            CollabEvent::WorldMerged { .. } => "WorldMerged"@,
        }
    }

    /// The player ids that the event names, in the order of its fields.
    pub open spec fn ids_view(self) -> Seq<Seq<char>> {
        match self {
            CollabEvent::PlayerJoined { player, .. } => seq![player@],
            CollabEvent::PlayerLeft { player, .. } => seq![player@],
            CollabEvent::CoBuild { players, .. } => string_views(players@),
            CollabEvent::AgentShared { from, to, .. } => seq![from@, to@],
            CollabEvent::WorldMerged { .. } => Seq::empty(),
        }
    }

    /// Tag used for grouping events by type in `events_by_type`.
    pub(crate) fn tag(&self) -> (t: &'static str)
        ensures
            t@ == self.tag_view(),
    {
        match self {
            CollabEvent::PlayerJoined { .. } => "PlayerJoined",
            CollabEvent::PlayerLeft { .. } => "PlayerLeft",
            CollabEvent::CoBuild { .. } => "CoBuild",
            CollabEvent::AgentShared { .. } => "AgentShared",
            CollabEvent::WorldMerged { .. } => "WorldMerged",
        }
    }

    /// All player ids referenced in this event.
    pub(crate) fn player_ids(&self) -> (ids: Vec<&str>)
        ensures
            ids@.map_values(|s: &str| s@) == self.ids_view(),
    {
        match self {
            CollabEvent::PlayerJoined { player, .. } => {
                let ids = vec![player.as_str()];
                assert(ids@.map_values(|s: &str| s@) =~= self.ids_view());
                ids
            },
            CollabEvent::PlayerLeft { player, .. } => {
                let ids = vec![player.as_str()];
                assert(ids@.map_values(|s: &str| s@) =~= self.ids_view());
                ids
            },
            CollabEvent::CoBuild { players, .. } => {
                let mut ids: Vec<&str> = Vec::new();
                let mut i: usize = 0;
                while i < players.len()
                    invariant
                        i <= players.len(),
                        ids@.map_values(|s: &str| s@) =~= string_views(players@).take(i as int),
                    decreases players.len() - i,
                {
                    let ghost before = ids@;
                    let p = players[i].as_str();
                    ids.push(p);
                    assert(ids@.map_values(|s: &str| s@) =~= before.map_values(|s: &str| s@).push(
                        p@,
                    ));
                    assert(string_views(players@).take(i + 1) =~= string_views(players@).take(
                        i as int,
                    ).push(players@[i as int]@));
                    i += 1;
                }
                assert(string_views(players@).take(i as int) =~= string_views(players@));
                ids
            },
            CollabEvent::AgentShared { from, to, .. } => {
                let ids = vec![from.as_str(), to.as_str()];
                assert(ids@.map_values(|s: &str| s@) =~= self.ids_view());
                ids
            },
            CollabEvent::WorldMerged { .. } => {
                let ids: Vec<&str> = Vec::new();
                assert(ids@.map_values(|s: &str| s@) =~= self.ids_view());
                ids
            },
        }
    }
}

} // verus!
