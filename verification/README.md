# lau_collab

Multiplayer collaboration layer for the Lau platform, verified with Verus.

- `src/world.rs`: `SharedWorld`, members with `Owner`/`Editor`/`Viewer` access.
- `src/session.rs`: `SessionLog`, its participants, per-type event counts and
  the narrative summary, with their specifications.
- `src/matcher.rs`: `CollabMatcher`, pairing players by shared interests.
- `src/event.rs`, `src/permission.rs`: the event and permission types.
- `src/keyed.rs`: string-keyed entry lists read as finite maps, with lemmas.
- `src/text.rs`: id comparison, decimal numbers, joining lines.
- `app/`: the `Player` record (it holds floats) and serde twins of the types.
