# witness

Positional state-read witnesses: the values a block's execution read from
state, in the order a fresh state sent them to its database, and nothing else.
Recorded once by a syncing node, they let every block of a chain be re-executed
on its own, in parallel, with no state and no lookups.

`src/` is the library, written and proved in Verus. It touches no file and runs
no executor: where a file is to be written it says which and with what, and
where the EVM's state is to be asked it says whether and about what.

| module | what it holds |
| --- | --- |
| `stream` | the byte format of one block's values |
| `index`, `frame` | the formats of a store's index and of a block's data in it |
| `store` | opening, appending to and reading a store |
| `disk` | what the actions of a store make of its files, and the laws on that |
| `record` | what is recorded while a block executes |
| `replay` | the database that serves a witness back, and the replay of a block |
| `roots` | BLAKE3 roots of a block's transactions and receipts |
| `payload_cache` | the caches for execution results |
| `primitives`, `digits`, `text` | the values, and their digits and decimals |

`app/` is ordinary Rust around it: the files of a store, revm's state as the
recorder's shadow, revm's database over a witness, the process-wide caches, and
error types with messages.

## Laws

Every `law_` function states something of the library as a whole and is proved.
Those at its centre:

- `stream::law_recorded_values_read_back`: values written one after the other
  are read back one after the other.
- `record::law_record_holds_what_reached_the_sink`: a record holds exactly the
  values that reached the shadow's database, in order.
- `replay::law_only_a_full_replay_counts` and
  `replay::law_a_replay_past_the_record_is_refused`: a replay that read less
  than was recorded, or more, is refused.
- `record::law_one_account_entry_per_address`: however often an account is read
  in a block, the record has one entry of it.
- `disk::law_all_streams_are_read_back`: what was appended to a store is read
  back block by block.
- `disk::law_opening_keeps_the_blocks_before`: reopening a store keeps the
  blocks before the one execution resumes at, and drops the others.
- `disk::law_recorded_block_replays_from_the_store`: these together.
- `disk::law_entries_on_disk_point_at_data`: an entry on disk never points at
  bytes that did not make it, between flushes too.
- `disk::law_interrupted_append_loses_nothing` and
  `disk::law_interrupted_append_can_be_redone`: what holds of a store when an
  append to it is cut short.

## What is not proved

Calls into zstd, BLAKE3 and alloy stand behind small functions whose contracts
are believed; each says in its documentation which function it calls and what
it claims of it. Whether a compression or a decompression succeeds is not
stated: either can run out of memory.
