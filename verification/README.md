# mtpdrive_core

The logic of MTPDrive, which shows Android MTP devices to macOS as a local
NFSv3 volume, written in Verus. The functions in `src/` carry contracts that
Verus proves, except a few small trusted wrappers around outside crates
(`mtp-rs` cancel tokens, `time`, `semver`, `uuid`) and `String::push`, whose
contracts are taken on trust and say in their doc comments what they claim.

## Layout

- `src/` — the verified library.
  - `text`, `format`, `i18n`: character-level helpers, byte counts and the
    English and Simplified Chinese texts.
  - `model`, `settings`, `paths`, `error`, `ipc`, `debug`, `output`: the
    data the daemon and its clients exchange, the control protocol's replies
    and errors (and how a reply is rendered in messages), and what the
    command line prints.
  - `cache`, `listing`, `nfs`, `staging`: the per-device directory cache,
    the NFS view of devices (file handles, names, directory pages,
    attributes, access decisions) and the bookkeeping of staged uploads.
  - `device`, `refresh`, `mount`, `daemon`, `logs`: device identities and
    summaries, the rescan of the bus as a state machine, the mount steps,
    the daemon's replies and the structured log store.
  - `ui`, `gui`, `release`: the decisions of the menu-bar app (tray, login
    item, update check and download, log view).
- `tests/` — tests of the library on concrete values.
- `app/` — the `mtpdrive` command and daemon: argument parsing, sockets,
  files, the MTP session and the clock, handing plain values to the
  library.
