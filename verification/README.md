# analyzed

One daemon keeps the analysis of Rust workspaces for many editors. Sessions whose toolchain and Cargo
configuration agree share a world: files, crate graph and macro servers are loaded once. Each session
keeps its own view of that world. What it has not saved, it alone sees, in its workspaces and in library
files alike; once a file is saved, every session sees the new text that does not have it open itself.

`src/` is the library, written in Verus. Every function states what it returns and what it changes, and
the laws of the library are proof functions named `law_*`.

- `registry`, `operations`, `slots`, `access`, `gc`: who shares a world, whose turn it is, who may read
  and write, and when garbage is collected.
- `config`, `keys`, `view`, `tokens`, `spawn_key`: the keys under which state is shared.
- `world`, `base`, `inputs`, `files`, `file_ids`: what a world holds.
- `overlay*`, `graph`, `sync`, `update`, `recone`, `rebuild`, `open_files`: what a session has put over
  the files on disk. `privacy`, `own_files`, `copies`, `saving`, `settled`, `rooting`: what follows
  for what each session sees.
- `disk`, `disk_roots`, `load`, `commit`, `batch`, `reload*`, `switching`, `build_*`, `macros`, `spawn`,
  `pools`: changes on disk, loading and reloading.
- `round`, `changes`, `settings`, `reconfigure`, `tasks`, `runtime`, `analysis`, `snapshots`, `leave`: one
  session, step by step.
- `lsp_frame`, `text`, `paths`, `diagnostics`, `flycheck`, `dist`, `startup`: messages, texts, paths,
  findings, releases.
- `fx`, `shared`: the calls into `rustc-hash` and `std::sync::Arc` that are taken on trust, with two
  more of `String` in `text`.

`app/` is the program around the library: sockets, threads, locks, files and the command line.
