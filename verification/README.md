# moba_launcher_core

The verified core of the Rivals Beyond launcher, written in Verus.

- `src/updater.rs` — signed manifest authentication and validation, client status, update
  planning (no rollback, trusted sizes), change detection, resumable downloads and their checks.
- `src/paths.rs` — safe client paths, realm address and `realmlist.wtf` contents.
- `src/news.rs` — the website news request and what an accepted article list satisfies.
- `src/diagnostics.rs` — journal records, Sentry events, native log reports, launch records and
  the relay's delivery bookkeeping (duplicates, consent, hourly cap, back-off).
- `src/scrub.rs` — removal of credentials, addresses and user paths from reported text.
- `src/errors.rs` — the errors shown to the player.
- `src/bindings.rs` — the calls into `sha2`, `ed25519-dalek`, `url` and std that the proofs
  trust, each with the contract its documentation supports.
- `src/text.rs` — character-level helpers.

`app/` holds the Tauri program: file system, network, threads and the serde copies of the
library's types. `tests/` exercises the library on concrete values.
