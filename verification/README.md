# unlock_all

An in-process cosmetics changer for H1Z1 (the ROTK / Z1 build), split into a
library whose behaviour is proved with Verus and a thin host that hooks,
reads and writes the game.

## Layout

| path | contents |
|---|---|
| `src/store.rs` | the persisted choices: the `prototype=skin=output` file, read and rewritten; what is written reads back |
| `src/console.rs` | the command port's language: words, commands, replies, job registry, log tails |
| `src/gamelog.rs` | which game-log lines are mirrored, and the printf-style expansion |
| `src/walk.rs` | the walks over the game's item lists and skin family map, fed one read at a time |
| `src/rows.rs` | the lock badge: which skin rows are added and what the row helpers answer |
| `src/skins.rs` | the changer's decisions: definition lookups, collection entries, preview targets |
| `src/process.rs` | hook sites and patches, their byte checks and reports; pointer sanity |
| `src/injector.rs` | the injector's text: process and module names, the session log, console lines |
| `src/scan.rs`, `src/text.rs` | splitting, trimming, number reading and rendering, over `Seq<char>` |
| `app/` | the payload's hooks, threads, sockets and memory access, and the injector program |
| `tests/` | tests of the library on concrete values |
