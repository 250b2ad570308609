# ccusage-adapter-cursor

Turns locally recorded Cursor Agent CLI and Cursor SDK usage into the entries
that usage reports are made of. The rules are a Verus library: each function
states what it returns in its contract, and Verus proves it.

## What is read

```text
$CURSOR_AGENT_HOME/   # or ~/.cursor
├── chats/<workspace>/<session>/store.db          # interactive CLI
├── acp-sessions/<session>/store.db               # ACP / `agent acp`
└── projects/<slug>/sdk-agent-store/<hash>/
    ├── index.db                                  # SDK + CLI catalog (`runs`, `run_events`)
    ├── runs.ndjson                               # optional JSONL store
    ├── run_events.ndjson                         # optional JSONL event log
    └── agents/<sha256>/store.db                  # per-agent blobs when `index.db` is absent
```

A `CURSOR_AGENT_HOME` that is not empty names one root, or several between
commas. Only records that carry token counts are counted.

Runs and events of one folder belong together, whether they stand in `index.db`
or in JSON lines. The usage events of a run win over the cumulative usage of the
run itself, so a turn is counted once.

Entries come in the order of their instants. Those of one instant keep the order
of their sources: all databases by path, then all JSON lines by path. Of the
entries of one turn the first in that order stays.

A record is labelled by the `model` that it names or inherits from a hook, else
by its `model_id`, else by the model that the chat last used. Its own names come
before inherited ones.

## Layout

- `src/` — the library
  - `text`, `number`, `order`, `json`, `object` — texts, JSON numbers, stable
    sorting, JSON trees and objects
  - `codec`, `clock` — JSON out of texts, hex and blobs; instants and dates
  - `usage`, `parser`, `sdk_index`, `store` — token counts and usage records
  - `pricing` — which names to look up prices by, and where a cost comes from
  - `entry` — records as report entries
  - `source_path`, `path_list`, `paths`, `discovery` — roots, files, sessions and
    projects
  - `table`, `loader`, `load_laws` — database rows and JSON lines to
    deduplicated, sorted entries, and what holds of these
  - `agent_report` — rows of a report: period, order and JSON form
- `app/` — the environment, the file system, SQLite and prices around it
- `tests/` — what the library gives on concrete values

`serde_json`, `memchr` and `jiff` are called from the library. What is believed
of them without proof stands in `codec` and `clock`, beside each call.
