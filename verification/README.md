# memlyzer

Watches the memory of a game client for loot messages ("Loot of a rat:
cheese, gold coin"), tells which messages are new since the last read, and
notifies the desktop user of the items that a wish list asks for.

- `src/` is the library, verified with Verus:
  - `memory` finds the messages in a copy of the heap (`entry_idexes`,
    `entry`, `magic_number`, `messages`), keeps them by checksum in a
    `Snapshot`, and computes the sorted texts that are new between two
    snapshots (`Snapshot::diff`);
  - `loot` takes a message apart (`Loot::from`) and keeps the items the wish
    list asks for (`Loot::filter`, which uses the `regex` crate for counts and
    plural suffixes);
  - `client` reads the client's process id from `ps ax` and its heap range
    from `/proc/<pid>/maps`;
  - `notify` reads the logged-in user from `who` and `id -u` and builds the
    notification command;
  - `watch` is the state machine of the polling loop;
  - `text` and `number` hold the character-sequence and number parsing they
    share.
- `app/` is the program around it: process list, memory map and memory
  reads (through `libc`), the configuration file (through `config`), logging,
  sleeping and running `sudo notify-send`.
- `tests/` runs the library.
