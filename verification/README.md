# omacal core

The logic of omacal's contacts, tasks and place lookup, verified with Verus.

- `src/vcard.rs` — reading vCard bodies into contacts (name, uid, addresses),
  with the laws that cards are read independently and that every address is
  a lowercased mailbox kept once per card.
- `src/cli_tasks.rs` — the `omacal tasks` grammar: verbs and flags, which
  list `--list` names, and which day and hour a due date or an edit means.
- `src/geocode.rs` — when a Location query is searched and may leave the
  machine, the Photon request, result labels, and the history/remote merge.
- `src/tasks.rs`, `src/contacts.rs` — the stored rows, the task pane's
  view model, and what a task write decides before and around its `PUT`
  (title, note, where the resource goes, what a refusal says, the new row),
  with the write's steps as a state machine whose law is "the server first,
  the local row after".
- `src/text.rs` — the character-level `str` operations the above rely on.
- `src/civil.rs` — the calendar arithmetic borrowed from `jiff`, each result
  named, and the `HH:MM` text of a zoned hour.

`app/` holds what stays outside the proofs: the SQLite store, the HTTP
round trip to Photon, JSON requests and serialisable view models.
