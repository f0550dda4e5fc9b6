use vstd::prelude::*;
use crate::keyed::{
    find_key, keys_distinct, lemma_keys_distinct_push, lemma_map_of_dom, lemma_map_of_index,
    lemma_map_of_remove, lemma_map_of_update, map_of,
};
use crate::text::{contains_id, str_eq, string_views};

verus! {

/// Two interest lists have at least one interest in common.
pub open spec fn shares_interest(a: Seq<Seq<char>>, b: Seq<Seq<char>>) -> bool {
    exists|i: int, j: int| 0 <= i < a.len() && 0 <= j < b.len() && #[trigger] a[i] == #[trigger] b[j]
}

/// `other` is a valid match for `player` among the players looking in `m`:
/// both are looking, they differ, and they share an interest.
pub open spec fn is_match(m: Map<Seq<char>, Seq<Seq<char>>>, player: Seq<char>, other: Seq<char>) -> bool {
    &&& m.contains_key(player)
    &&& m.contains_key(other)
    &&& other != player
    &&& shares_interest(m[player], m[other])
}

/// The entries of players looking for company, with ids and interests read
/// as character sequences.
pub open spec fn looking_entries(v: Seq<(String, Vec<String>)>) -> Seq<(Seq<char>, Seq<Seq<char>>)> {
    v.map_values(|e: (String, Vec<String>)| (e.0@, string_views(e.1@)))
}

/// Matches kids who want to play together based on shared interests.
pub struct CollabMatcher {
    /// player id with that player's interests
    looking: Vec<(String, Vec<String>)>,
}

impl View for CollabMatcher {
    /// Each looking player's id mapped to its interests.
    type V = Map<Seq<char>, Seq<Seq<char>>>;

    closed spec fn view(&self) -> Map<Seq<char>, Seq<Seq<char>>> {
        map_of(looking_entries(self.looking@))
    }
}

/// Whether the two interest lists share an interest.
fn any_shared(mine: &Vec<String>, theirs: &Vec<String>) -> (r: bool)
    ensures
        r == shares_interest(string_views(mine@), string_views(theirs@)),
{
    let ghost a = string_views(mine@);
    let ghost b = string_views(theirs@);
    let mut i: usize = 0;
    while i < mine.len()
        invariant
            i <= mine.len(),
            a == string_views(mine@),
            b == string_views(theirs@),
            forall|k: int| 0 <= k < i ==> !b.contains(#[trigger] a[k]),
        decreases mine.len() - i,
    {
        if contains_id(theirs, mine[i].as_str()) {
            proof {
                assert(a[i as int] == mine@[i as int]@);
                let j = choose|j: int| 0 <= j < b.len() && b[j] == a[i as int];
                assert(a[i as int] == b[j]);
            }
            return true;
        }
        assert(a[i as int] == mine@[i as int]@);
        i += 1;
    }
    assert forall|k: int, j: int| 0 <= k < a.len() && 0 <= j < b.len() implies #[trigger] a[k]
        != #[trigger] b[j] by {
        assert(!b.contains(a[k]));
    }
    false
}

impl CollabMatcher {
    /// Well-formedness: no player is listed twice.
    pub closed spec fn wf(self) -> bool {
        keys_distinct(looking_entries(self.looking@))
    }

    /// A matcher with nobody looking.
    pub fn new() -> (m: Self)
        ensures
            m@ == Map::<Seq<char>, Seq<Seq<char>>>::empty(),
            m.wf(),
    {
        let m = CollabMatcher { looking: Vec::new() };
        assert(looking_entries(m.looking@) =~= Seq::<(Seq<char>, Seq<Seq<char>>)>::empty());
        m
    }

    /// Lists `player_id` as looking for company with `interests`, replacing
    /// the interests it was listed with.
    pub fn add_looking(&mut self, player_id: String, interests: Vec<String>)
        requires
            old(self).wf(),
        ensures
            final(self).wf(),
            final(self)@ == old(self)@.insert(player_id@, string_views(interests@)),
    {
        let ghost old_v = self.looking@;
        let ghost e = looking_entries(old_v);
        let ghost k = player_id@;
        let ghost vals = string_views(interests@);
        match find_key(&self.looking, player_id.as_str()) {
            Some(i) => {
                proof {
                    assert(e[i as int].0 == k);
                    lemma_map_of_update(e, i as int, vals);
                    assert(looking_entries(old_v.update(i as int, (player_id, interests)))
                        =~= e.update(i as int, (k, vals)));
                }
                self.looking.set(i, (player_id, interests));
            },
            None => {
                proof {
                    lemma_map_of_dom(e, k);
                    assert forall|j: int| 0 <= j < e.len() implies #[trigger] e[j].0 != k by {
                        assert(e[j].0 == old_v[j].0@);
                    }
                    lemma_keys_distinct_push(e, k, vals);
                    assert(looking_entries(old_v.push((player_id, interests))) =~= e.push((k, vals)));
                    assert(e.push((k, vals)).drop_last() =~= e);
                }
                self.looking.push((player_id, interests));
            },
        }
    }

    /// Stops listing `player_id` as looking for company.
    pub fn remove_looking(&mut self, player_id: &str)
        requires
            old(self).wf(),
        ensures
            final(self).wf(),
            final(self)@ == old(self)@.remove(player_id@),
    {
        let ghost old_v = self.looking@;
        let ghost e = looking_entries(old_v);
        let ghost k = player_id@;
        proof {
            lemma_map_of_dom(e, k);
        }
        match find_key(&self.looking, player_id) {
            Some(i) => {
                proof {
                    assert(e[i as int].0 == k);
                    lemma_map_of_remove(e, i as int);
                    assert(looking_entries(old_v.remove(i as int)) =~= e.remove(i as int));
                }
                self.looking.remove(i);
            },
            None => {
                proof {
                    assert forall|j: int| 0 <= j < e.len() implies #[trigger] e[j].0 != k by {
                        assert(e[j].0 == old_v[j].0@);
                    }
                    assert(map_of(e).remove(k) =~= map_of(e));
                }
            },
        }
    }

    /// Finds another looking player who shares at least one interest with
    /// `player_id`; `None` when `player_id` is not looking or nobody matches.
    pub fn find_match(&self, player_id: &str) -> (r: Option<String>)
        requires
            self.wf(),
        ensures
            match r {
                Some(other) => is_match(self@, player_id@, other@),
                None => forall|other: Seq<char>| !is_match(self@, player_id@, other),
            },
    {
        let ghost e = looking_entries(self.looking@);
        let ghost p = player_id@;
        proof {
            lemma_map_of_dom(e, p);
        }
        let mine_at = match find_key(&self.looking, player_id) {
            Some(k) => k,
            None => {
                assert forall|j: int| 0 <= j < e.len() implies #[trigger] e[j].0 != p by {
                    assert(e[j].0 == self.looking@[j].0@);
                }
                return None;
            },
        };
        proof {
            assert(e[mine_at as int].0 == p);
            lemma_map_of_index(e, mine_at as int);
        }
        let mine = &self.looking[mine_at].1;
        assert(string_views(mine@) == self@[p]);
        let mut i: usize = 0;
        while i < self.looking.len()
            invariant
                i <= self.looking.len(),
                e == looking_entries(self.looking@),
                p == player_id@,
                keys_distinct(e),
                string_views(mine@) == map_of(e)[p],
                map_of(e).contains_key(p),
                forall|j: int|
                    0 <= j < i ==> #[trigger] e[j].0 == p || !shares_interest(map_of(e)[p], e[j].1),
            decreases self.looking.len() - i,
        {
            let other = &self.looking[i];
            assert(e[i as int] == (other.0@, string_views(other.1@)));
            let is_self = str_eq(other.0.as_str(), player_id);
            if !is_self {
                let shared = any_shared(mine, &other.1);
                if shared {
                    let found = other.0.clone();
                    proof {
                        lemma_map_of_index(e, i as int);
                        assert(map_of(e).contains_key(found@));
                        assert(map_of(e)[found@] == string_views(other.1@));
                    }
                    return Some(found);
                }
            }
            assert(e[i as int].0 == p || !shares_interest(map_of(e)[p], e[i as int].1));
            i += 1;
        }
        assert forall|o: Seq<char>| !is_match(self@, p, o) by {
            lemma_map_of_dom(e, o);
            if map_of(e).contains_key(o) && o != p {
                let j = choose|j: int| 0 <= j < e.len() && #[trigger] e[j].0 == o;
                lemma_map_of_index(e, j);
            }
        }
        None
    }
    /// The players looking for company with their interests, each player once.
    pub fn looking(&self) -> (entries: &[(String, Vec<String>)])
        requires
            self.wf(),
        ensures
            map_of(looking_entries(entries@)) == self@,
            keys_distinct(looking_entries(entries@)),
    {
        self.looking.as_slice()
    }
}

impl Default for CollabMatcher {
    /// Same as `CollabMatcher::new`.
    fn default() -> (m: Self)
        ensures
            m@ == Map::<Seq<char>, Seq<Seq<char>>>::empty(),
            m.wf(),
    {
        Self::new()
    }
}

/// Matching is mutual: if `other` is a match for `player`, then `player` is
/// a match for `other`, so `find_match(other)` finds somebody too.
pub proof fn lemma_match_is_mutual(m: Map<Seq<char>, Seq<Seq<char>>>, player: Seq<char>, other: Seq<char>)
    requires
        is_match(m, player, other),
    ensures
        is_match(m, other, player),
{
    let (i, j) = choose|i: int, j: int|
        0 <= i < m[player].len() && 0 <= j < m[other].len() && #[trigger] m[player][i]
            == #[trigger] m[other][j];
    assert(m[other][j] == m[player][i]);
}

/// Nobody is ever matched with a player who stopped looking, and a player
/// who stopped looking is matched with nobody.
pub proof fn lemma_removed_never_matched(m: Map<Seq<char>, Seq<Seq<char>>>, removed: Seq<char>, other: Seq<char>)
    ensures
        !is_match(m.remove(removed), other, removed),
        !is_match(m.remove(removed), removed, other),
{
}

/// A player is never its own match.
pub proof fn lemma_never_self_match(m: Map<Seq<char>, Seq<Seq<char>>>, player: Seq<char>)
    ensures
        !is_match(m, player, player),
{
}

/// Looking for company, then finding it: with two players listed that share
/// an interest, each is a match for the other.
pub proof fn lemma_shared_interest_matches(
    m: Map<Seq<char>, Seq<Seq<char>>>,
    player: Seq<char>,
    other: Seq<char>,
    interest: Seq<char>,
)
    requires
        m.contains_key(player),
        m.contains_key(other),
        player != other,
        m[player].contains(interest),
        m[other].contains(interest),
    ensures
        is_match(m, player, other),
        is_match(m, other, player),
{
    let i = choose|i: int| 0 <= i < m[player].len() && m[player][i] == interest;
    let j = choose|j: int| 0 <= j < m[other].len() && m[other][j] == interest;
    assert(m[player][i] == m[other][j]);
    assert(m[other][j] == m[player][i]);
}

} // verus!
