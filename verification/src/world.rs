use vstd::prelude::*;
use crate::keyed::{
    find_key, keys_distinct, lemma_keys_distinct_push, lemma_map_of_dom, lemma_map_of_index,
    lemma_map_of_len, lemma_map_of_remove, lemma_map_of_update, map_of,
};
use crate::permission::Permission;
use crate::text::str_eq;

verus! {

/// A world that can be collaboratively edited by multiple players.
///
/// The collaborators are kept as a list of `(player id, permission)` entries
/// with distinct ids; the owner is always among them.
pub struct SharedWorld {
    world_id: String,
    owner: String,
    collaborators: Vec<(String, Permission)>,
}

/// The collaborator entries with ids read as character sequences.
pub open spec fn collaborator_entries(v: Seq<(String, Permission)>) -> Seq<(Seq<char>, Permission)> {
    v.map_values(|e: (String, Permission)| (e.0@, e.1))
}

impl View for SharedWorld {
    /// Each member's id mapped to its access level.
    type V = Map<Seq<char>, Permission>;

    closed spec fn view(&self) -> Map<Seq<char>, Permission> {
        map_of(collaborator_entries(self.collaborators@))
    }
}

impl SharedWorld {
    /// The id of the player who created the world.
    pub closed spec fn owner_id(self) -> Seq<char> {
        self.owner@
    }

    /// The world's own id.
    pub closed spec fn world_id_view(self) -> Seq<char> {
        self.world_id@
    }

    /// What `permission` answers for `player_id`: the member's access level,
    /// and `Viewer` for anyone who is not a member.
    pub open spec fn permission_of(self, player_id: Seq<char>) -> Permission {
        if self@.contains_key(player_id) {
            self@[player_id]
        } else {
            Permission::Viewer
        }
    }

    /// Well-formedness: member ids are distinct and the owner is a member.
    pub closed spec fn wf(self) -> bool {
        &&& keys_distinct(collaborator_entries(self.collaborators@))
        &&& map_of(collaborator_entries(self.collaborators@)).contains_key(self.owner@)
    }

    /// Creates a world whose only member is its owner, with `Owner` access.
    pub fn new(world_id: &str, owner: &str) -> (w: Self)
        ensures
            w@ == map![owner@ => Permission::Owner],
            w.owner_id() == owner@,
            w.world_id_view() == world_id@,
            w.wf(),
    {
        let mut collaborators: Vec<(String, Permission)> = Vec::new();
        collaborators.push((owner.to_owned(), Permission::Owner));
        let ghost e = collaborator_entries(collaborators@);
        assert(e.len() == 1 && e[0] == (owner@, Permission::Owner));
        assert(e.drop_last() =~= Seq::<(Seq<char>, Permission)>::empty());
        assert(map_of(e.drop_last()) =~= Map::<Seq<char>, Permission>::empty());
        assert(map_of(e) =~= map![owner@ => Permission::Owner]);
        SharedWorld { world_id: world_id.to_owned(), owner: owner.to_owned(), collaborators }
    }

    /// Grants `perm` to `player_id`, adding the player as a member or
    /// replacing the access level it had.
    pub fn invite(&mut self, player_id: String, perm: Permission)
        requires
            old(self).wf(),
        ensures
            final(self).wf(),
            final(self)@ == old(self)@.insert(player_id@, perm),
            final(self).owner_id() == old(self).owner_id(),
            final(self).world_id_view() == old(self).world_id_view(),
            final(self)@.contains_key(final(self).owner_id()),
    {
        let ghost old_v = self.collaborators@;
        let ghost e = collaborator_entries(old_v);
        let ghost k = player_id@;
        match find_key(&self.collaborators, player_id.as_str()) {
            Some(i) => {
                proof {
                    assert(e[i as int].0 == k);
                    lemma_map_of_update(e, i as int, perm);
                    assert(collaborator_entries(old_v.update(i as int, (player_id, perm)))
                        =~= e.update(i as int, (k, perm)));
                }
                self.collaborators.set(i, (player_id, perm));
            },
            None => {
                proof {
                    lemma_map_of_dom(e, k);
                    assert forall|j: int| 0 <= j < e.len() implies #[trigger] e[j].0 != k by {
                        assert(e[j].0 == old_v[j].0@);
                    }
                    lemma_keys_distinct_push(e, k, perm);
                    assert(collaborator_entries(old_v.push((player_id, perm)))
                        =~= e.push((k, perm)));
                    assert(e.push((k, perm)).drop_last() =~= e);
                }
                self.collaborators.push((player_id, perm));
            },
        }
    }

    /// Removes `player_id` from the members. The owner cannot be removed.
    /// Returns whether a member was removed.
    pub fn remove(&mut self, player_id: &str) -> (removed: bool)
        requires
            old(self).wf(),
        ensures
            final(self).wf(),
            player_id@ == old(self).owner_id() ==> !removed && final(self)@ == old(self)@,
            player_id@ != old(self).owner_id() ==> {
                &&& removed == old(self)@.contains_key(player_id@)
                &&& final(self)@ == old(self)@.remove(player_id@)
            },
            final(self).owner_id() == old(self).owner_id(),
            final(self).world_id_view() == old(self).world_id_view(),
            final(self)@.contains_key(final(self).owner_id()),
    {
        if str_eq(player_id, self.owner.as_str()) {
            return false;
        }
        let ghost old_v = self.collaborators@;
        let ghost e = collaborator_entries(old_v);
        let ghost k = player_id@;
        proof {
            lemma_map_of_dom(e, k);
        }
        match find_key(&self.collaborators, player_id) {
            Some(i) => {
                proof {
                    assert(e[i as int].0 == k);
                    lemma_map_of_remove(e, i as int);
                    assert(collaborator_entries(old_v.remove(i as int)) =~= e.remove(i as int));
                    assert(map_of(e).remove(k).contains_key(self.owner@));
                }
                self.collaborators.remove(i);
                true
            },
            None => {
                proof {
                    assert forall|j: int| 0 <= j < e.len() implies #[trigger] e[j].0 != k by {
                        assert(e[j].0 == old_v[j].0@);
                    }
                    assert(map_of(e).remove(k) =~= map_of(e));
                }
                false
            },
        }
    }

    /// Whether `player_id` is a member of the world.
    pub fn is_member(&self, player_id: &str) -> (r: bool)
        requires
            self.wf(),
        ensures
            r == self@.contains_key(player_id@),
    {
        proof {
            lemma_map_of_dom(collaborator_entries(self.collaborators@), player_id@);
        }
        match find_key(&self.collaborators, player_id) {
            Some(i) => {
                assert(collaborator_entries(self.collaborators@)[i as int].0 == player_id@);
                true
            },
            None => {
                assert forall|j: int| 0 <= j < self.collaborators@.len()
                    implies #[trigger] collaborator_entries(self.collaborators@)[j].0 != player_id@ by {
                    assert(collaborator_entries(self.collaborators@)[j].0 == self.collaborators@[j].0@);
                }
                false
            },
        }
    }

    /// The access level of `player_id`; `Viewer` for non-members.
    pub fn permission(&self, player_id: &str) -> (p: Permission)
        requires
            self.wf(),
        ensures
            p == self.permission_of(player_id@),
    {
        proof {
            lemma_map_of_dom(collaborator_entries(self.collaborators@), player_id@);
        }
        let ghost e = collaborator_entries(self.collaborators@);
        match find_key(&self.collaborators, player_id) {
            Some(i) => {
                proof {
                    assert(e[i as int].0 == player_id@);
                    lemma_map_of_index(e, i as int);
                }
                self.collaborators[i].1
            },
            None => {
                assert forall|j: int| 0 <= j < e.len() implies #[trigger] e[j].0 != player_id@ by {
                    assert(e[j].0 == self.collaborators@[j].0@);
                }
                Permission::default()
            },
        }
    }

    /// Whether `player_id` may build: its access level is `Owner` or `Editor`.
    pub fn can_build(&self, player_id: &str) -> (r: bool)
        requires
            self.wf(),
        ensures
            r == self.permission_of(player_id@).allows_building(),
    {
        match self.permission(player_id) {
            Permission::Owner | Permission::Editor => true,
            Permission::Viewer => false,
        }
    }

    /// The number of members, the owner included.
    pub fn member_count(&self) -> (n: usize)
        requires
            self.wf(),
        ensures
            n == self@.len(),
    {
        proof {
            lemma_map_of_len(collaborator_entries(self.collaborators@));
        }
        self.collaborators.len()
    }
    /// The world's id.
    pub fn world_id(&self) -> (id: &str)
        ensures
            id@ == self.world_id_view(),
    {
        self.world_id.as_str()
    }

    /// The id of the player who created the world.
    pub fn owner(&self) -> (id: &str)
        ensures
            id@ == self.owner_id(),
    {
        self.owner.as_str()
    }

    /// The members with their access levels, each member once.
    pub fn collaborators(&self) -> (members: &[(String, Permission)])
        requires
            self.wf(),
        ensures
            map_of(collaborator_entries(members@)) == self@,
            keys_distinct(collaborator_entries(members@)),
    {
        self.collaborators.as_slice()
    }
}

/// The owner of a world is always one of its members: `new` makes it one,
/// `invite` only adds or changes members, and `remove` refuses the owner.
pub proof fn lemma_owner_is_member(w: SharedWorld)
    requires
        w.wf(),
    ensures
        w@.contains_key(w.owner_id()),
{
}

/// A player who is not a member has access `Viewer` and cannot build,
/// whatever the world's other members; a member has exactly the access it
/// holds in the world, and may build exactly when that is `Owner` or `Editor`.
pub proof fn lemma_permission_law(w: SharedWorld, player_id: Seq<char>)
    ensures
        !w@.contains_key(player_id) ==> w.permission_of(player_id) == Permission::Viewer,
        !w@.contains_key(player_id) ==> !w.permission_of(player_id).allows_building(),
        w@.contains_key(player_id) ==> w.permission_of(player_id) == w@[player_id],
        w.permission_of(player_id).allows_building() <==> (w@.contains_key(player_id) && (
        w@[player_id] is Owner || w@[player_id] is Editor)),
{
}

/// After `invite(player_id, perm)` the player is a member, with access `perm`.
pub proof fn lemma_invite_grants(before: SharedWorld, after: SharedWorld, player_id: Seq<char>, perm: Permission)
    requires
        after@ == before@.insert(player_id, perm),
    ensures
        after@.contains_key(player_id),
        after.permission_of(player_id) == perm,
        after.permission_of(player_id).allows_building() <==> (perm is Owner || perm is Editor),
{
}

/// Inviting a newcomer and then removing it gives back the same members,
/// and the member count that the world had before.
pub proof fn lemma_invite_then_remove(
    start: SharedWorld,
    invited: SharedWorld,
    removed: SharedWorld,
    player_id: Seq<char>,
    perm: Permission,
)
    requires
        start.wf(),
        !start@.contains_key(player_id),
        invited@ == start@.insert(player_id, perm),
        removed@ == invited@.remove(player_id),
    ensures
        removed@ == start@,
        removed@.len() == start@.len(),
{
    assert(removed@ =~= start@);
}

} // verus!
