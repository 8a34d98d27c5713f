# fpm

The core of the FTD package manager as a verified library, with the command
line around it.

- `src/` — the library, checked by Verus:
  - `text` — string operations on characters (search, split, trim, replace,
    decimal numbers), each with its specification;
  - `strmap` — a string-keyed ordered map whose walk follows key order;
  - `paths` — path joining;
  - `document` — the files of a package, their ids, kinds and order;
  - `config` — the package configuration and the folders derived from it;
  - `apis` — the sync messages, and what the server does with a request;
  - `commands` — the changes a client sends, snapshots, serving requests;
  - `status` — how files and tracking relations stand against snapshots;
  - `cache` — counters kept as decimal text;
  - `library` — the `get-data` processor's decisions;
  - `authors` — the authors line of the help text.
- `app/` — the program: command-line parsing, file and network I/O, JSON,
  the HTTP server, and the parts that depend on FTD's document types.
- `tests/` — tests of the library.

Paths follow the rules of Unix-like targets: `/` separates components and a
path is absolute when it starts with `/`.
