# Hermes

Hermes is the Cybercore portfolio's Discord bot. It relays CI, release and
download status of the portfolio's GitHub repositories through slash commands,
runs an opt-in troubleshooting intake and a read-only server audit, and can
post a stateful project-update digest to `#dev-log`.

The crate is a library checked with Verus; the bot itself is in `app/`.

- `src/repos.rs` — the registry of tracked repositories and featured tools;
  name resolution (whitespace- and case-insensitive).
- `src/commands.rs` — the text of every command reply.
- `src/github.rs` — what is read from GitHub, the request addresses and the
  decisions on the answers (release status, CI conclusion, download totals).
- `src/audit.rs` — the server audit report and its split into messages.
- `src/devlog.rs` — the poller's memory and the decisions of each round.
- `src/subscriptions.rs` — the project-watch subscription store.
- `src/text.rs`, `src/order.rs` — text helpers and stable keyed ordering.
- `app/` — Discord (poise/serenity), HTTP (reqwest), JSON files (serde) and
  the polling loop, calling the library for every decision.
