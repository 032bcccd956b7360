# p2sync

P2P real-time folder synchronization, with its logic verified by [Verus](https://github.com/verus-lang/verus).

## Layout

- `src/` is the library: chunking, the Merkle tree, the index, vector clocks and conflict resolution,
  the decisions of the sync engine and of the network loop, settings, commands, and what the dashboard
  shows. Each function states what it returns or changes, and Verus proves it.
- `tests/` runs the library on concrete values.
- `app/` is the program: it reads and watches files, drives the libp2p swarm, parses the command line
  and `.p2sync.toml`, and draws the dashboard.

## What is trusted

- `blake3::hash` gives the same 32 bytes for the same data. Where a law rests on hashes being told
  apart, it says so among its conditions.
- `libp2p::PeerId::from_str`, `libp2p::PeerId::to_bytes` and `libp2p::Multiaddr::from_str` depend on
  their argument alone.
- The system clock, of which nothing is known.
- `String::push` and three functions of `std::time::Duration`, as std documents them.

## Laws

Some of what is proved of the library as a whole:

- A reconciliation brings every file of the remote folder (`reconcile_laws`), unless a local file
  stands in the place of a remote directory, or two contents that meet have the same hash. Equal
  folders fetch nothing.
- A fetch gives the remote file, whatever the local one holds, and asks only for the chunks that are
  missing (`transfer_laws`). The file has to be within the limits of size and number of chunks, and no
  two different chunks at the same place may have the same hash.
- The differences of two trees, replayed on the old one in any order, give the root hash of the new one
  (`replay_laws`); no two of them are about the same path or one below the other, and swapping the trees
  swaps them (`diff_laws`).
- The index knows exactly the files of its tree after every operation (`known_laws`), where no file in
  the index stands in the place of a directory of the path that is written.
- No path from a peer leads out of the folder (`sync_engine`, `inbound_laws`).
- Both sides of a conflict agree on who lost, and one of them makes the backup (`conflict`,
  `inbound_laws`).
- Every update of the index leaves each directory with the hash of its contents (`index_laws`). An empty
  file and an empty directory never have their hashes taken of the same bytes (`tree_laws`).

## Settings

`.p2sync.toml` in the synced folder; all values are optional.

```toml
default_excludes = [".git", ".DS_Store", ".p2sync.toml"]

[storage]
chunk_size = 262144        # must not be 0
max_chunk_index = 16384
max_file_size = 1073741824
tombstone_ttl_secs = 3600

[network]
discovery = "lan"          # or "wan"
relay = "none"             # a multiaddr, or "auto"
```

A pattern excludes every file and directory whose path below the folder has it in one of its names.
