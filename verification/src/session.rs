use vstd::prelude::*;
use crate::event::CollabEvent;
use crate::keyed::{
    find_key, keys_distinct, lemma_keys_distinct_push, lemma_map_of_dom, lemma_map_of_index,
    lemma_map_of_update, map_of,
};
use crate::text::{
    contains_id, decimal, ends_with, join_strings, join_with, lemma_join_first, lemma_join_last,
    lemma_join_middle, occurs_in, push_decimal, starts_with, string_views,
};

verus! {

/// Every player id that the events name, event after event.
pub open spec fn all_ids(events: Seq<CollabEvent>) -> Seq<Seq<char>>
    decreases events.len(),
{
    if events.len() == 0 {
        Seq::empty()
    } else {
        all_ids(events.drop_last()) + events.last().ids_view()
    }
}

/// The distinct elements of `s`, each where it first occurs.
pub open spec fn first_occurrences(s: Seq<Seq<char>>) -> Seq<Seq<char>>
    decreases s.len(),
{
    if s.len() == 0 {
        Seq::empty()
    } else {
        let d = first_occurrences(s.drop_last());
        if d.contains(s.last()) {
            d
        } else {
            d.push(s.last())
        }
    }
}

/// The number of events whose tag is `tag`.
pub open spec fn count_tag(events: Seq<CollabEvent>, tag: Seq<char>) -> nat
    decreases events.len(),
{
    if events.len() == 0 {
        0
    } else {
        count_tag(events.drop_last(), tag) + if events.last().tag_view() == tag {
            1nat
        } else {
            0nat
        }
    }
}

/// `first_occurrences(s)` holds no element twice and holds exactly the
/// elements of `s`.
pub proof fn lemma_first_occurrences(s: Seq<Seq<char>>)
    ensures
        first_occurrences(s).no_duplicates(),
        forall|x: Seq<char>| first_occurrences(s).contains(x) <==> s.contains(x),
    decreases s.len(),
{
    if s.len() > 0 {
        let d = s.drop_last();
        lemma_first_occurrences(d);
        let f = first_occurrences(d);
        assert forall|x: Seq<char>| s.contains(x) <==> (d.contains(x) || x == s.last()) by {
            if s.contains(x) && x != s.last() {
                let i = choose|i: int| 0 <= i < s.len() && s[i] == x;
                assert(d[i] == x);
            }
            if d.contains(x) {
                let i = choose|i: int| 0 <= i < d.len() && d[i] == x;
                assert(s[i] == x);
            }
            if x == s.last() {
                assert(s[s.len() - 1] == x);
            }
        }
        assert forall|x: Seq<char>| f.push(s.last()).contains(x) <==> (f.contains(x) || x == s.last()) by {
            let g = f.push(s.last());
            if g.contains(x) && x != s.last() {
                let i = choose|i: int| 0 <= i < g.len() && g[i] == x;
                assert(f[i] == x);
            }
            if f.contains(x) {
                let i = choose|i: int| 0 <= i < f.len() && f[i] == x;
                assert(g[i] == x);
            }
            if x == s.last() {
                assert(g[g.len() - 1] == x);
            }
        }
    }
}

/// There are at most as many events with a tag as there are events.
pub proof fn lemma_count_tag_bound(events: Seq<CollabEvent>, tag: Seq<char>)
    ensures
        count_tag(events, tag) <= events.len(),
    decreases events.len(),
{
    if events.len() > 0 {
        lemma_count_tag_bound(events.drop_last(), tag);
    }
}

/// A line that reports `n` between a fixed `prefix` and `suffix`.
pub open spec fn count_line(prefix: Seq<char>, n: nat, suffix: Seq<char>) -> Seq<char> {
    prefix + decimal(n) + suffix
}

/// The one-line list `seq![line]` when `n > 0`, and no line otherwise.
pub open spec fn line_if(n: nat, line: Seq<char>) -> Seq<Seq<char>> {
    if n > 0 {
        seq![line]
    } else {
        Seq::empty()
    }
}

/// The text of a session's summary when nothing happened in it.
pub open spec fn empty_summary() -> Seq<char> {
    "An empty session \u{2014} the world waited quietly, but nobody came."@
}

/// The summary's first line: the session's start tick, end tick and length.
pub open spec fn summary_header(start_tick: u64, duration_ticks: u64) -> Seq<char> {
    "\u{1f31f} Session report (tick "@ + decimal(start_tick as nat) + " \u{2013} "@ + decimal(
        (start_tick + duration_ticks) as nat,
    ) + ", "@ + decimal(duration_ticks as nat) + " ticks):"@
}

/// The summary's lines for a non-empty log: the header, one line for each
/// kind of event that occurred, with its count, and the participants.
pub open spec fn summary_lines(events: Seq<CollabEvent>, start_tick: u64, duration_ticks: u64) -> Seq<
    Seq<char>,
> {
    let players = first_occurrences(all_ids(events));
    seq![summary_header(start_tick, duration_ticks)] + line_if(
        count_tag(events, "PlayerJoined"@),
        count_line(
            "\u{1f6aa} "@,
            count_tag(events, "PlayerJoined"@),
            " player(s) joined the adventure."@,
        ),
    ) + line_if(
        count_tag(events, "PlayerLeft"@),
        count_line("\u{1f44b} "@, count_tag(events, "PlayerLeft"@), " player(s) headed home."@),
    ) + line_if(
        count_tag(events, "CoBuild"@),
        count_line(
            "\u{1f3d7}\u{fe0f} "@,
            count_tag(events, "CoBuild"@),
            " co-build(s) brought ideas to life!"@,
        ),
    ) + line_if(
        count_tag(events, "AgentShared"@),
        count_line(
            "\u{1f916} "@,
            count_tag(events, "AgentShared"@),
            " agent(s) were shared between friends."@,
        ),
    ) + line_if(
        count_tag(events, "WorldMerged"@),
        count_line(
            "\u{1f30c} "@,
            count_tag(events, "WorldMerged"@),
            " world(s) were merged into something greater!"@,
        ),
    ) + line_if(
        players.len(),
        count_line("\u{1f465} "@, players.len(), " unique player(s): "@) + join_with(
            players,
            ", "@,
        ),
    )
}

/// The narrative summary of a session with `events`.
pub open spec fn summary_text(events: Seq<CollabEvent>, start_tick: u64, duration_ticks: u64) -> Seq<
    char,
> {
    if events.len() == 0 {
        empty_summary()
    } else {
        join_with(summary_lines(events, start_tick, duration_ticks), "\n"@)
    }
}

/// The five tag names differ from each other.
pub proof fn lemma_tag_names_distinct()
    ensures
        "PlayerJoined"@ != "PlayerLeft"@,
        "PlayerJoined"@ != "CoBuild"@,
        "PlayerJoined"@ != "AgentShared"@,
        "PlayerJoined"@ != "WorldMerged"@,
        "PlayerLeft"@ != "CoBuild"@,
        "PlayerLeft"@ != "AgentShared"@,
        "PlayerLeft"@ != "WorldMerged"@,
        "CoBuild"@ != "AgentShared"@,
        "CoBuild"@ != "WorldMerged"@,
        "AgentShared"@ != "WorldMerged"@,
{
    reveal_strlit("PlayerJoined");
    reveal_strlit("PlayerLeft");
    reveal_strlit("CoBuild");
    reveal_strlit("AgentShared");
    reveal_strlit("WorldMerged");
    assert("PlayerJoined"@.len() != "PlayerLeft"@.len());
    assert("PlayerJoined"@.len() != "CoBuild"@.len());
    assert("PlayerJoined"@.len() != "AgentShared"@.len());
    assert("PlayerJoined"@.len() != "WorldMerged"@.len());
    assert("PlayerLeft"@.len() != "CoBuild"@.len());
    assert("PlayerLeft"@.len() != "AgentShared"@.len());
    assert("PlayerLeft"@.len() != "WorldMerged"@.len());
    assert("CoBuild"@.len() != "AgentShared"@.len());
    assert("CoBuild"@.len() != "WorldMerged"@.len());
    assert("AgentShared"@[0] != "WorldMerged"@[0]);
}

/// Each event is counted under the name of its own variant, whatever its
/// fields: the count of a variant's name is the number of events of that
/// variant. So recording a `CoBuild` adds one to `"CoBuild"` and leaves the
/// other four counts as they were.
pub proof fn lemma_counts_by_variant(events: Seq<CollabEvent>)
    ensures
        count_tag(events, "PlayerJoined"@) == events.filter(|e: CollabEvent| e is PlayerJoined).len(),
        count_tag(events, "PlayerLeft"@) == events.filter(|e: CollabEvent| e is PlayerLeft).len(),
        count_tag(events, "CoBuild"@) == events.filter(|e: CollabEvent| e is CoBuild).len(),
        count_tag(events, "AgentShared"@) == events.filter(|e: CollabEvent| e is AgentShared).len(),
        count_tag(events, "WorldMerged"@) == events.filter(|e: CollabEvent| e is WorldMerged).len(),
    decreases events.len(),
{
    if events.len() > 0 {
        reveal(Seq::filter);
        lemma_counts_by_variant(events.drop_last());
        lemma_tag_names_distinct();
    }
}

/// Every event carries exactly one of the five tags: the counts of the five
/// tags add up to the number of events, and no other tag is ever counted.
pub proof fn lemma_tag_counts_total(events: Seq<CollabEvent>)
    ensures
        count_tag(events, "PlayerJoined"@) + count_tag(events, "PlayerLeft"@) + count_tag(
            events,
            "CoBuild"@,
        ) + count_tag(events, "AgentShared"@) + count_tag(events, "WorldMerged"@) == events.len(),
        forall|t: Seq<char>|
            t != "PlayerJoined"@ && t != "PlayerLeft"@ && t != "CoBuild"@ && t != "AgentShared"@ && t
                != "WorldMerged"@ ==> #[trigger] count_tag(events, t) == 0,
    decreases events.len(),
{
    if events.len() > 0 {
        lemma_tag_counts_total(events.drop_last());
        lemma_tag_names_distinct();
        assert forall|t: Seq<char>|
            t != "PlayerJoined"@ && t != "PlayerLeft"@ && t != "CoBuild"@ && t != "AgentShared"@
                && t != "WorldMerged"@ implies #[trigger] count_tag(events, t) == 0 by {
            assert(count_tag(events.drop_last(), t) == 0);
            assert(events.last().tag_view() != t);
        }
    }
}

/// Recording an event adds one to the count of its tag and leaves every
/// other count as it was.
pub proof fn lemma_record_counts(events: Seq<CollabEvent>, event: CollabEvent, tag: Seq<char>)
    ensures
        count_tag(events.push(event), tag) == count_tag(events, tag) + if event.tag_view() == tag {
            1nat
        } else {
            0nat
        },
{
    assert(events.push(event).drop_last() =~= events);
}

/// The unique participants of `s` come first, in the same order, among
/// those of `s + t`.
pub proof fn lemma_first_occurrences_prefix(s: Seq<Seq<char>>, t: Seq<Seq<char>>)
    ensures
        first_occurrences(s).len() <= first_occurrences(s + t).len(),
        forall|i: int|
            0 <= i < first_occurrences(s).len() ==> #[trigger] first_occurrences(s + t)[i]
                == first_occurrences(s)[i],
    decreases t.len(),
{
    if t.len() == 0 {
        assert(s + t =~= s);
    } else {
        lemma_first_occurrences_prefix(s, t.drop_last());
        assert((s + t).drop_last() =~= s + t.drop_last());
        assert((s + t).last() == t.last());
    }
}

/// Recording an event never drops a participant nor changes the order of
/// those already listed: the old list is a prefix of the new one.
pub proof fn lemma_record_keeps_participants(events: Seq<CollabEvent>, event: CollabEvent)
    ensures
        first_occurrences(all_ids(events)).len() <= first_occurrences(
            all_ids(events.push(event)),
        ).len(),
        forall|i: int|
            0 <= i < first_occurrences(all_ids(events)).len() ==> #[trigger] first_occurrences(
                all_ids(events.push(event)),
            )[i] == first_occurrences(all_ids(events))[i],
{
    assert(events.push(event).drop_last() =~= events);
    assert(all_ids(events.push(event)) == all_ids(events) + event.ids_view());
    lemma_first_occurrences_prefix(all_ids(events), event.ids_view());
}

/// Whether the event names `id` in one of its player fields: the player of
/// a join or a leave, any co-builder, either end of an agent share.
pub open spec fn names_player(e: CollabEvent, id: Seq<char>) -> bool {
    match e {
        CollabEvent::PlayerJoined { player, .. } => player@ == id,
        CollabEvent::PlayerLeft { player, .. } => player@ == id,
        CollabEvent::CoBuild { players, .. } => exists|j: int|
            0 <= j < players@.len() && #[trigger] players@[j]@ == id,
        CollabEvent::AgentShared { from, to, .. } => from@ == id || to@ == id,
        CollabEvent::WorldMerged { .. } => false,
    }
}

/// The ids that an event lists are the players it names.
proof fn lemma_ids_view_names(e: CollabEvent, id: Seq<char>)
    ensures
        e.ids_view().contains(id) <==> names_player(e, id),
{
    match e {
        CollabEvent::PlayerJoined { player, .. } => {
            if e.ids_view().contains(id) {
                let k = choose|k: int| 0 <= k < e.ids_view().len() && e.ids_view()[k] == id;
            }
            if names_player(e, id) {
                assert(e.ids_view()[0] == id);
            }
        },
        CollabEvent::PlayerLeft { player, .. } => {
            if names_player(e, id) {
                assert(e.ids_view()[0] == id);
            }
        },
        CollabEvent::CoBuild { players, .. } => {
            let v = string_views(players@);
            if v.contains(id) {
                let k = choose|k: int| 0 <= k < v.len() && v[k] == id;
                assert(players@[k]@ == id);
            }
            if names_player(e, id) {
                let j = choose|j: int| 0 <= j < players@.len() && #[trigger] players@[j]@ == id;
                assert(v[j] == id);
            }
        },
        CollabEvent::AgentShared { from, to, .. } => {
            if from@ == id {
                assert(e.ids_view()[0] == id);
            }
            if to@ == id {
                assert(e.ids_view()[1] == id);
            }
        },
        CollabEvent::WorldMerged { .. } => {},
    }
}

/// An id occurs among the ids of a log exactly when some event names it.
proof fn lemma_all_ids_named(events: Seq<CollabEvent>, id: Seq<char>)
    ensures
        all_ids(events).contains(id) <==> exists|i: int|
            0 <= i < events.len() && names_player(#[trigger] events[i], id),
    decreases events.len(),
{
    if events.len() > 0 {
        let d = events.drop_last();
        let a = all_ids(d);
        let b = events.last().ids_view();
        lemma_all_ids_named(d, id);
        lemma_ids_view_names(events.last(), id);
        if (a + b).contains(id) {
            let k = choose|k: int| 0 <= k < (a + b).len() && (a + b)[k] == id;
            if k < a.len() {
                assert(a[k] == id);
                let i = choose|i: int| 0 <= i < d.len() && names_player(#[trigger] d[i], id);
                assert(events[i] == d[i]);
            } else {
                assert(b[k - a.len()] == id);
                assert(names_player(events[events.len() - 1], id));
            }
        }
        if exists|i: int| 0 <= i < events.len() && names_player(#[trigger] events[i], id) {
            let i = choose|i: int| 0 <= i < events.len() && names_player(#[trigger] events[i], id);
            if i < events.len() - 1 {
                assert(d[i] == events[i]);
                let k = choose|k: int| 0 <= k < a.len() && a[k] == id;
                assert((a + b)[k] == id);
            } else {
                let k = choose|k: int| 0 <= k < b.len() && b[k] == id;
                assert((a + b)[a.len() + k] == id);
            }
        }
    }
}

/// The participants of a log are exactly the players that its events name in
/// their player fields (the player of every join and every leave, every
/// co-builder, both ends of every agent share), each listed once. So a log
/// whose only event is a leave of `p` has exactly `p` as participant.
pub proof fn lemma_participants_are_named_players(events: Seq<CollabEvent>, id: Seq<char>)
    ensures
        first_occurrences(all_ids(events)).contains(id) <==> exists|i: int|
            0 <= i < events.len() && names_player(#[trigger] events[i], id),
        first_occurrences(all_ids(events)).no_duplicates(),
{
    lemma_first_occurrences(all_ids(events));
    lemma_all_ids_named(events, id);
}

/// A log with no events is summarised by the fixed "nobody came" text.
pub proof fn lemma_empty_summary(events: Seq<CollabEvent>, start_tick: u64, duration_ticks: u64)
    requires
        events.len() == 0,
    ensures
        summary_text(events, start_tick, duration_ticks)
            == "An empty session \u{2014} the world waited quietly, but nobody came."@,
{
}

/// A counted line that is present sits in the joined text right after a
/// separator, whatever lines come before (at least one) and after it.
proof fn lemma_present_line_occurs(
    before: Seq<Seq<char>>,
    n: nat,
    line: Seq<char>,
    after: Seq<Seq<char>>,
    sep: Seq<char>,
)
    requires
        before.len() > 0,
        n > 0,
    ensures
        occurs_in(sep + line, join_with(before + line_if(n, line) + after, sep)),
{
    assert(before + line_if(n, line) + after =~= before + seq![line] + after);
    lemma_join_middle(before, line, after, sep);
}

/// The summary of a non-empty log starts with its header: the start tick,
/// the end tick and the length of the session.
pub proof fn lemma_summary_header(events: Seq<CollabEvent>, start_tick: u64, duration_ticks: u64)
    requires
        events.len() > 0,
    ensures
        starts_with(
            summary_text(events, start_tick, duration_ticks),
            "\u{1f31f} Session report (tick "@ + decimal(start_tick as nat) + " \u{2013} "@ + decimal(
                (start_tick + duration_ticks) as nat,
            ) + ", "@ + decimal(duration_ticks as nat) + " ticks):"@,
        ),
{
    let lines = summary_lines(events, start_tick, duration_ticks);
    let h = summary_header(start_tick, duration_ticks);
    assert(seq![h] + lines.drop_first() =~= lines);
    lemma_join_first(h, lines.drop_first(), "\n"@);
}

/// For each kind of event that occurred, the summary of the log has a line,
/// right after a line break, that gives the number of events of that kind.
#[verifier::rlimit(50)]
pub proof fn lemma_summary_counts(events: Seq<CollabEvent>, start_tick: u64, duration_ticks: u64)
    requires
        events.len() > 0,
    ensures
        events.filter(|e: CollabEvent| e is PlayerJoined).len() > 0 ==> occurs_in(
            "\n"@ + "\u{1f6aa} "@ + decimal(events.filter(|e: CollabEvent| e is PlayerJoined).len())
                + " player(s) joined the adventure."@,
            summary_text(events, start_tick, duration_ticks),
        ),
        events.filter(|e: CollabEvent| e is PlayerLeft).len() > 0 ==> occurs_in(
            "\n"@ + "\u{1f44b} "@ + decimal(events.filter(|e: CollabEvent| e is PlayerLeft).len())
                + " player(s) headed home."@,
            summary_text(events, start_tick, duration_ticks),
        ),
        events.filter(|e: CollabEvent| e is CoBuild).len() > 0 ==> occurs_in(
            "\n"@ + "\u{1f3d7}\u{fe0f} "@ + decimal(events.filter(|e: CollabEvent| e is CoBuild).len())
                + " co-build(s) brought ideas to life!"@,
            summary_text(events, start_tick, duration_ticks),
        ),
        events.filter(|e: CollabEvent| e is AgentShared).len() > 0 ==> occurs_in(
            "\n"@ + "\u{1f916} "@ + decimal(events.filter(|e: CollabEvent| e is AgentShared).len())
                + " agent(s) were shared between friends."@,
            summary_text(events, start_tick, duration_ticks),
        ),
        events.filter(|e: CollabEvent| e is WorldMerged).len() > 0 ==> occurs_in(
            "\n"@ + "\u{1f30c} "@ + decimal(events.filter(|e: CollabEvent| e is WorldMerged).len())
                + " world(s) were merged into something greater!"@,
            summary_text(events, start_tick, duration_ticks),
        ),
{
    lemma_counts_by_variant(events);
    let sep = "\n"@;
    let players = first_occurrences(all_ids(events));
    let cj = count_tag(events, "PlayerJoined"@);
    let cl = count_tag(events, "PlayerLeft"@);
    let cb = count_tag(events, "CoBuild"@);
    let ca = count_tag(events, "AgentShared"@);
    let cm = count_tag(events, "WorldMerged"@);
    let lj = count_line("\u{1f6aa} "@, cj, " player(s) joined the adventure."@);
    let ll = count_line("\u{1f44b} "@, cl, " player(s) headed home."@);
    let lb = count_line("\u{1f3d7}\u{fe0f} "@, cb, " co-build(s) brought ideas to life!"@);
    let la = count_line("\u{1f916} "@, ca, " agent(s) were shared between friends."@);
    let lm = count_line("\u{1f30c} "@, cm, " world(s) were merged into something greater!"@);
    let lp = line_if(
        players.len(),
        count_line("\u{1f465} "@, players.len(), " unique player(s): "@) + join_with(players, ", "@),
    );
    let s0 = seq![summary_header(start_tick, duration_ticks)];
    let s1 = s0 + line_if(cj, lj);
    let s2 = s1 + line_if(cl, ll);
    let s3 = s2 + line_if(cb, lb);
    let s4 = s3 + line_if(ca, la);
    let s5 = s4 + line_if(cm, lm);
    let lines = summary_lines(events, start_tick, duration_ticks);
    assert(lines == s5 + lp);
    assert(cj > 0 ==> occurs_in(sep + lj, join_with(lines, sep))) by {
        if cj > 0 {
            let after = line_if(cl, ll) + line_if(cb, lb) + line_if(ca, la) + line_if(cm, lm) + lp;
            assert(lines =~= s0 + line_if(cj, lj) + after);
            lemma_present_line_occurs(s0, cj, lj, after, sep);
        }
    }
    assert(cl > 0 ==> occurs_in(sep + ll, join_with(lines, sep))) by {
        if cl > 0 {
            let after = line_if(cb, lb) + line_if(ca, la) + line_if(cm, lm) + lp;
            assert(lines =~= s1 + line_if(cl, ll) + after);
            lemma_present_line_occurs(s1, cl, ll, after, sep);
        }
    }
    assert(cb > 0 ==> occurs_in(sep + lb, join_with(lines, sep))) by {
        if cb > 0 {
            let after = line_if(ca, la) + line_if(cm, lm) + lp;
            assert(lines =~= s2 + line_if(cb, lb) + after);
            lemma_present_line_occurs(s2, cb, lb, after, sep);
        }
    }
    assert(ca > 0 ==> occurs_in(sep + la, join_with(lines, sep))) by {
        if ca > 0 {
            let after = line_if(cm, lm) + lp;
            assert(lines =~= s3 + line_if(ca, la) + after);
            lemma_present_line_occurs(s3, ca, la, after, sep);
        }
    }
    assert(cm > 0 ==> occurs_in(sep + lm, join_with(lines, sep))) by {
        if cm > 0 {
            assert(lines =~= s4 + line_if(cm, lm) + lp);
            lemma_present_line_occurs(s4, cm, lm, lp, sep);
        }
    }
    assert(sep + lj =~= "\n"@ + "\u{1f6aa} "@ + decimal(cj) + " player(s) joined the adventure."@);
    assert(sep + ll =~= "\n"@ + "\u{1f44b} "@ + decimal(cl) + " player(s) headed home."@);
    assert(sep + lb =~= "\n"@ + "\u{1f3d7}\u{fe0f} "@ + decimal(cb)
        + " co-build(s) brought ideas to life!"@);
    assert(sep + la =~= "\n"@ + "\u{1f916} "@ + decimal(ca)
        + " agent(s) were shared between friends."@);
    assert(sep + lm =~= "\n"@ + "\u{1f30c} "@ + decimal(cm)
        + " world(s) were merged into something greater!"@);
}

/// When some event names a player, the summary of the log ends with the line
/// of unique participants, however many there are: their number, then their
/// ids in order of first appearance joined with ", ".
pub proof fn lemma_summary_participants(events: Seq<CollabEvent>, start_tick: u64, duration_ticks: u64)
    requires
        events.len() > 0,
        first_occurrences(all_ids(events)).len() > 0,
    ensures
        ends_with(
            summary_text(events, start_tick, duration_ticks),
            "\n"@ + "\u{1f465} "@ + decimal(first_occurrences(all_ids(events)).len())
                + " unique player(s): "@ + join_with(first_occurrences(all_ids(events)), ", "@),
        ),
{
    let sep = "\n"@;
    let players = first_occurrences(all_ids(events));
    let lines = summary_lines(events, start_tick, duration_ticks);
    let lp = count_line("\u{1f465} "@, players.len(), " unique player(s): "@) + join_with(
        players,
        ", "@,
    );
    assert(lines.len() > 0 && lines.last() == lp);
    assert(lines =~= lines.drop_last().push(lp));
    assert(lines.drop_last().len() > 0);
    lemma_join_last(lines.drop_last(), lp, sep);
    assert(sep + lp =~= "\n"@ + "\u{1f465} "@ + decimal(players.len()) + " unique player(s): "@
        + join_with(players, ", "@));
}

/// A log of collaboration events within a session.
#[derive(Debug, Clone)]
pub struct SessionLog {
    pub events: Vec<CollabEvent>,
    pub start_tick: u64,
    pub duration_ticks: u64,
}

/// Count of each event type: tags with the number of events that carry them.
pub struct EventCounts {
    counts: Vec<(String, usize)>,
}

/// The count entries with tags read as character sequences.
pub open spec fn count_entries(v: Seq<(String, usize)>) -> Seq<(Seq<char>, usize)> {
    v.map_values(|e: (String, usize)| (e.0@, e.1))
}

/// `m` maps each tag that occurs in `events` to its number of occurrences,
/// and holds no other tag.
pub open spec fn counts_events(m: Map<Seq<char>, usize>, events: Seq<CollabEvent>) -> bool {
    forall|t: Seq<char>|
        (m.contains_key(t) <==> #[trigger] count_tag(events, t) > 0) && (m.contains_key(t)
            ==> m[t] == count_tag(events, t))
}

impl View for EventCounts {
    type V = Map<Seq<char>, usize>;

    closed spec fn view(&self) -> Map<Seq<char>, usize> {
        map_of(count_entries(self.counts@))
    }
}

impl EventCounts {
    #[verifier::type_invariant]
    closed spec fn wf(self) -> bool {
        keys_distinct(count_entries(self.counts@))
    }

    /// The count recorded for `tag`, if any event carried it.
    pub fn get(&self, tag: &str) -> (r: Option<&usize>)
        ensures
            r is Some <==> self@.contains_key(tag@),
            r matches Some(c) ==> *c == self@[tag@],
    {
        proof {
            use_type_invariant(self);
            lemma_map_of_dom(count_entries(self.counts@), tag@);
        }
        let ghost e = count_entries(self.counts@);
        match find_key(&self.counts, tag) {
            Some(i) => {
                proof {
                    assert(e[i as int].0 == tag@);
                    lemma_map_of_index(e, i as int);
                }
                Some(&self.counts[i].1)
            },
            None => {
                assert forall|j: int| 0 <= j < e.len() implies #[trigger] e[j].0 != tag@ by {
                    assert(e[j].0 == self.counts@[j].0@);
                }
                None
            },
        }
    }

    /// The tags with their counts, each tag once.
    pub fn entries(&self) -> (entries: &[(String, usize)])
        ensures
            map_of(count_entries(entries@)) == self@,
            keys_distinct(count_entries(entries@)),
    {
        proof {
            use_type_invariant(self);
        }
        self.counts.as_slice()
    }

    /// The number of distinct tags counted.
    pub fn len(&self) -> (n: usize)
        ensures
            n == self@.len(),
    {
        proof {
            use_type_invariant(self);
            crate::keyed::lemma_map_of_len(count_entries(self.counts@));
        }
        self.counts.len()
    }
}

/// `prefix`, then `n` in decimal, then `suffix`.
fn make_count_line(prefix: &str, n: usize, suffix: &str) -> (line: String)
    ensures
        line@ == count_line(prefix@, n as nat, suffix@),
{
    let mut line = prefix.to_owned();
    push_decimal(&mut line, n as u64);
    line.append(suffix);
    line
}

/// The count that `counts` holds for `tag`, or zero.
fn count_or_zero(counts: &EventCounts, tag: &str) -> (n: usize)
    ensures
        n == if counts@.contains_key(tag@) {
            counts@[tag@]
        } else {
            0
        },
{
    match counts.get(tag) {
        Some(c) => *c,
        None => 0,
    }
}

impl SessionLog {
    /// An empty log for a session that starts at `start_tick` and lasts
    /// `duration_ticks`.
    pub fn new(start_tick: u64, duration_ticks: u64) -> (log: Self)
        ensures
            log.events@ == Seq::<CollabEvent>::empty(),
            log.start_tick == start_tick,
            log.duration_ticks == duration_ticks,
    {
        SessionLog { events: Vec::new(), start_tick, duration_ticks }
    }

    /// Appends `event` to the log.
    pub fn record(&mut self, event: CollabEvent)
        ensures
            final(self).events@ == old(self).events@.push(event),
            final(self).start_tick == old(self).start_tick,
            final(self).duration_ticks == old(self).duration_ticks,
    {
        self.events.push(event);
    }

    /// Unique player IDs that appear across all events, in the order in
    /// which they first appear.
    pub fn participants(&self) -> (ids: Vec<String>)
        ensures
            string_views(ids@) == first_occurrences(all_ids(self.events@)),
            string_views(ids@).no_duplicates(),
            forall|x: Seq<char>| string_views(ids@).contains(x) <==> all_ids(self.events@).contains(x),
    {
        let mut seen: Vec<String> = Vec::new();
        let mut i: usize = 0;
        while i < self.events.len()
            invariant
                i <= self.events.len(),
                string_views(seen@) == first_occurrences(all_ids(self.events@.take(i as int))),
            decreases self.events.len() - i,
        {
            let ids = self.events[i].player_ids();
            let ghost prefix = all_ids(self.events@.take(i as int));
            let ghost evids = self.events@[i as int].ids_view();
            let mut j: usize = 0;
            while j < ids.len()
                invariant
                    j <= ids.len(),
                    ids@.map_values(|s: &str| s@) == evids,
                    string_views(seen@) == first_occurrences(prefix + evids.take(j as int)),
                decreases ids.len() - j,
            {
                let id = ids[j];
                let ghost before = seen@;
                let ghost s = prefix + evids.take(j as int);
                assert(evids[j as int] == id@);
                assert((prefix + evids.take(j + 1)) =~= s.push(id@));
                assert(s.push(id@).drop_last() =~= s);
                if !contains_id(&seen, id) {
                    seen.push(id.to_owned());
                    assert(string_views(seen@) =~= string_views(before).push(id@));
                }
                j += 1;
            }
            proof {
                assert(evids.take(j as int) =~= evids);
                let t = self.events@.take(i + 1);
                assert(t.drop_last() =~= self.events@.take(i as int));
                assert(t.last() == self.events@[i as int]);
            }
            i += 1;
        }
        proof {
            assert(self.events@.take(i as int) =~= self.events@);
            lemma_first_occurrences(all_ids(self.events@));
        }
        seen
    }

    /// Count of each event type.
    pub fn events_by_type(&self) -> (counts: EventCounts)
        ensures
            counts_events(counts@, self.events@),
    {
        let mut counts: Vec<(String, usize)> = Vec::new();
        let mut i: usize = 0;
        proof {
            assert(map_of(count_entries(counts@)) =~= Map::<Seq<char>, usize>::empty());
        }
        while i < self.events.len()
            invariant
                i <= self.events.len(),
                keys_distinct(count_entries(counts@)),
                counts_events(map_of(count_entries(counts@)), self.events@.take(i as int)),
            decreases self.events.len() - i,
        {
            let tag = self.events[i].tag();
            let ghost old_v = counts@;
            let ghost e = count_entries(old_v);
            let ghost m = map_of(e);
            let ghost pre = self.events@.take(i as int);
            let ghost post = self.events@.take(i + 1);
            proof {
                assert(post.drop_last() =~= pre);
                assert(post.last() == self.events@[i as int]);
                assert forall|t: Seq<char>| #[trigger] count_tag(post, t) == count_tag(pre, t) + (
                if t == tag@ {
                    1nat
                } else {
                    0nat
                }) by {}
                lemma_count_tag_bound(pre, tag@);
                lemma_map_of_dom(e, tag@);
            }
            match find_key(&counts, tag) {
                Some(j) => {
                    let key = counts[j].0.clone();
                    let c = counts[j].1;
                    proof {
                        assert(e[j as int].0 == tag@);
                        lemma_map_of_index(e, j as int);
                        assert(count_tag(pre, tag@) > 0);
                        lemma_map_of_update(e, j as int, (c + 1) as usize);
                    }
                    counts.set(j, (key, c + 1));
                    proof {
                        assert(count_entries(counts@) =~= e.update(
                            j as int,
                            (tag@, (c + 1) as usize),
                        ));
                    }
                },
                None => {
                    proof {
                        assert forall|k: int| 0 <= k < e.len() implies #[trigger] e[k].0
                            != tag@ by {
                            assert(e[k].0 == old_v[k].0@);
                        }
                        lemma_keys_distinct_push(e, tag@, 1usize);
                    }
                    counts.push((tag.to_owned(), 1));
                    proof {
                        assert(count_entries(counts@) =~= e.push((tag@, 1usize)));
                        assert(e.push((tag@, 1usize)).drop_last() =~= e);
                    }
                },
            }
            i += 1;
        }
        proof {
            assert(self.events@.take(i as int) =~= self.events@);
        }
        EventCounts { counts }
    }

    /// A fun narrative summary of the session.
    pub fn summary(&self) -> (text: String)
        requires
            self.events.len() > 0 ==> self.start_tick + self.duration_ticks <= u64::MAX,
        ensures
            text@ == summary_text(self.events@, self.start_tick, self.duration_ticks),
    {
        if self.events.len() == 0 {
            return "An empty session \u{2014} the world waited quietly, but nobody came.".to_owned();
        }
        let ghost events = self.events@;
        let counts = self.events_by_type();
        let joins = count_or_zero(&counts, "PlayerJoined");
        let leaves = count_or_zero(&counts, "PlayerLeft");
        let builds = count_or_zero(&counts, "CoBuild");
        let shares = count_or_zero(&counts, "AgentShared");
        let merges = count_or_zero(&counts, "WorldMerged");
        assert(joins == count_tag(events, "PlayerJoined"@));
        assert(leaves == count_tag(events, "PlayerLeft"@));
        assert(builds == count_tag(events, "CoBuild"@));
        assert(shares == count_tag(events, "AgentShared"@));
        assert(merges == count_tag(events, "WorldMerged"@));

        let mut parts: Vec<String> = Vec::new();
        let mut header = "\u{1f31f} Session report (tick ".to_owned();
        push_decimal(&mut header, self.start_tick);
        header.append(" \u{2013} ");
        push_decimal(&mut header, self.start_tick + self.duration_ticks);
        header.append(", ");
        push_decimal(&mut header, self.duration_ticks);
        header.append(" ticks):");
        assert(header@ =~= summary_header(self.start_tick, self.duration_ticks));
        parts.push(header);
        let ghost mut lines = seq![summary_header(self.start_tick, self.duration_ticks)];
        assert(string_views(parts@) =~= lines);

        let ghost line = count_line("\u{1f6aa} "@, joins as nat, " player(s) joined the adventure."@);
        if joins > 0 {
            parts.push(make_count_line("\u{1f6aa} ", joins, " player(s) joined the adventure."));
        }
        proof {
            lines = lines + line_if(joins as nat, line);
        }
        assert(string_views(parts@) =~= lines);

        let ghost line = count_line("\u{1f44b} "@, leaves as nat, " player(s) headed home."@);
        if leaves > 0 {
            parts.push(make_count_line("\u{1f44b} ", leaves, " player(s) headed home."));
        }
        proof {
            lines = lines + line_if(leaves as nat, line);
        }
        assert(string_views(parts@) =~= lines);

        let ghost line = count_line(
            "\u{1f3d7}\u{fe0f} "@,
            builds as nat,
            " co-build(s) brought ideas to life!"@,
        );
        if builds > 0 {
            parts.push(
                make_count_line("\u{1f3d7}\u{fe0f} ", builds, " co-build(s) brought ideas to life!"),
            );
        }
        proof {
            lines = lines + line_if(builds as nat, line);
        }
        assert(string_views(parts@) =~= lines);

        let ghost line = count_line(
            "\u{1f916} "@,
            shares as nat,
            " agent(s) were shared between friends."@,
        );
        if shares > 0 {
            parts.push(
                make_count_line("\u{1f916} ", shares, " agent(s) were shared between friends."),
            );
        }
        proof {
            lines = lines + line_if(shares as nat, line);
        }
        assert(string_views(parts@) =~= lines);

        let ghost line = count_line(
            "\u{1f30c} "@,
            merges as nat,
            " world(s) were merged into something greater!"@,
        );
        if merges > 0 {
            parts.push(
                make_count_line(
                    "\u{1f30c} ",
                    merges,
                    " world(s) were merged into something greater!",
                ),
            );
        }
        proof {
            lines = lines + line_if(merges as nat, line);
        }
        assert(string_views(parts@) =~= lines);

        let participants = self.participants();
        let ghost players = first_occurrences(all_ids(events));
        let ghost line = count_line("\u{1f465} "@, players.len(), " unique player(s): "@) + join_with(
            players,
            ", "@,
        );
        if participants.len() > 0 {
            let mut last = make_count_line("\u{1f465} ", participants.len(), " unique player(s): ");
            let names = join_strings(&participants, ", ");
            last.append(names.as_str());
            parts.push(last);
        }
        proof {
            lines = lines + line_if(players.len(), line);
        }
        assert(string_views(parts@) =~= lines);
        assert(lines =~= summary_lines(events, self.start_tick, self.duration_ticks));
        join_strings(&parts, "\n")
    }
}

} // verus!
