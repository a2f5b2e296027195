# psm

A small command-line password manager. `psm init` makes a random AES-256
key and prints it (Base64); `psm create name N password P description D key K`
seals the password under the key with AES-256-GCM and stores it; `psm get
name N key K` checks the key against the digest stored by `init` and shows
the password again; `psm remove all` (or `remove X name N`) removes the store
or one record.

Layout:

- `src/` — the verified library (Verus):
  - `args.rs` — the argument table, the command-line parser, the help text
    and the dispatch of the first command given;
  - `args_beta.rs` — the earlier form of the argument table and parser;
  - `commands.rs` — `init`, `create`, `get` and `remove`, each split where
    the store is read or written;
  - `store.rs` — the record files, reading them back, and the key check;
  - `password.rs` — the password record;
  - `codec.rs` — Base64, AES-256-GCM, MD5, UTF-8 and debug quoting of
    text, each outside call in one small trusted function with its contract;
  - `prompt.rs` — reading typed answers;
  - `text.rs` — character helpers (comparison, decimal and hexadecimal).
- `app/main.rs` — the program: command line, files, printing.
- `tests/` — tests of the library.
