# discorhdd

A block device whose bytes live on a chat service: the device is cut into
chunks of `MAX_FILE_SIZE` bytes, and each chunk that was ever written is one
message of the service, whose id the chunk table keeps.

- `src/` is the library, verified with Verus:
  - `bridge.rs`: the `ChatServiceBridge` trait that a service implements,
    described by the messages it holds;
  - `discord_drive.rs`: `DiscordDrive` (upload and download of bytes as
    messages) and `ChunkManager` (reads and writes at any offset), with their
    contracts over the device's contents;
  - `layout.rs`: pieces, padding and splicing of byte sequences, and the
    lemmas about them;
  - `test_bridge.rs`: a service kept in memory, verified against the trait;
  - `config.rs`: the settings a drive is opened with.
- `app/` holds what talks to the world: the Discord service (serenity), the
  config and chunk-table files, the nbdkit plugin and a small program.
