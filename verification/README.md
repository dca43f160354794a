# rivine

A broker that speaks the Kafka protocol. The library under `src/` is verified with
Verus: what each function returns or changes is stated in its contract and proved.
`app/` is the program around it: arguments, settings, files, connections and timers.

## The library

| Module     | What is in it |
|------------|---------------|
| `protocol` | Primitive types on the wire, headers, requests and responses, record batches, their compression, and runs of them |
| `storage`  | Offset and time indices, segments, the log of a partition, the offsets that it gives out, compaction, and what a restart finds in the files |
| `server`   | Topics and partitions, and what is done with each kind of request |
| `group`    | Consumer groups and committed offsets |
| `cluster`  | Elections, replication and the driver that ticks them |
| `internals`| Internal topics and idempotent producers |
| `buf`, `clock`, `maps` | Outside types that the others use |
| `order`, `text` | The order of strings, and numbers as text |
| `config`, `metrics`, `supported` | Settings, health and the versions that are supported |

The library does no input or output. A function that would read a clock has a
companion that takes the time. One that would write to a file returns what is to be
written, and one that would read from a file says from where on and is handed what
was found there. Where the bytes of a batch do not decide alone whether it is read,
reading is a step of its own, and what follows is stated over what was read.

## Contracts and laws

Contracts speak of mathematical values: `x@` or `x.model()` of a value `x`, and a
`Cursor` for what is left of the bytes that are decoded. What holds of several
functions at once is a public proof function whose name starts with `law_`. Some of
them:

- `storage::log::law_appended_stays_readable`: nothing that was appended is lost.
- `storage::recovery::law_restart_keeps_records`: nor is it by a restart.
- `server::records::law_fetch_gives_back_produce`: a fetch gives what was produced.
- `server::groups::law_committed_is_fetched`: a committed offset is the one that is
  fetched.
- `group::offset_store::law_appended_commit_is_recovered`: and is still known after a
  restart.
- `storage::offsets::law_offsets_count_records`: the offsets that appends give out have
  no gap and no overlap.
- `cluster::driver::law_one_vote_per_term`: a node votes for one candidate in a term.
- `cluster::driver::law_one_candidate_has_majority`: where every node casts at most one
  vote, two candidates cannot both have a majority of the nodes' votes.

What is believed of outside crates stands beside the functions that call them, in
`buf`, `clock`, `maps`, `protocol::compression`, `protocol::recordbatch`,
`protocol::primitive`, `internals::idempotence`, `server::metadata` and
`group::coordinator`.

## Running it

The program takes `--config` with a file of settings, in TOML. Settings also come from
variables of the environment that begin with `RIVINE_`, such as `RIVINE_BROKER_ID`.
