# kafq

A command-line client for Apache Kafka whose rules are proved with Verus: how records become lines
of JSON and lines become records, which records a run of `consume`, `topic:copy` or `topic:dump`
shows, when it stops and with which exit code, which settings a client is given, and which values
every report shows.

- `src/` is the verified library. The contracts speak of texts as sequences of characters, of JSON
  as a tree, of settings as a map, and of a run as the sequence of signals that it was given.
- `src/json.rs`, `src/clock.rs`, `src/offsets.rs`, `src/text.rs`, `src/timestamp.rs` and
  `src/client.rs` hold the calls into `serde_json`, `chrono`, `rdkafka` and the standard library
  whose contracts are believed rather than proved; each says which call it stands for and what it
  claims of it.
- `app/` is the program around the library: arguments, brokers, files, signals and component
  formatters. It performs what the library decides and hands back what happened. The lines of
  `topic:dump`, `metadata`, `config`, `topic:create` and `topic:offsets` are written by
  `app/output.rs`, where the names and the order of their fields stand; these are not proved.
- `tests/` runs the library, linked with the real crates.

Functions named `law_` state what holds of the library as a whole, such as that a consumed line can
be produced again, that a snapshot shows no record past the watermarks it began with, that every
record is written once and in order, or that what is written is one line for each value.
