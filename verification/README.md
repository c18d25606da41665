# sbx_server

The agent that runs inside a job and serves sandboxes over HTTP: it runs commands and streams
their output, keeps background processes, moves files, and reaches servers that run in a
sandbox. One binary has two modes. A dedicated server *is* the sandbox. A host packs many
sandboxes into one job, each with a uid, a private home, a Landlock ruleset and a token of its
own.

## Layout

- `src/` is the library: every rule and every decision, verified with Verus.
  - `text`, `number`, `strmap`, `order`: texts, numerals, maps of texts, sorting.
  - `http`, `response`, `json`: the wire. Parsing and printing JSON is serde_json's.
  - `auth`, `routes`, `server`: who may ask for what, and what is done for a request.
  - `sandboxes`, `uids`, `procfs`, `lifecycle`: the sandboxes of a host and their uids.
  - `isolation`, `landlock`: what the processes of a sandbox are held to.
  - `exec`, `processes`: commands and background processes.
  - `fsutil`, `files`, `proxy`: paths beneath a home, the file API, the port proxy.
  - `connection`, `watchdog`, `config`: connections, idleness, configuration.
- `tests/` runs the library on concrete values.
- `app/` is the program around it: sockets, processes, files and system calls.

The library performs no input or output. Where the program alternates system calls and
decisions, the library holds the decisions: a value such as `HeadReader`, `Creation`,
`CommandWatch`, `KillSweep` or a list of `FsStep` says what to do next, and the program does it
and reports back.

## What is promised

The proof functions named `law_*` state what holds of the library as a whole, among them: a
caller without a token learns nothing but that the server lives; a sandbox token acts on its own
sandbox only; no two sandboxes share a uid, and a uid is handed out again only after its sandbox
is known to be gone; a path never leads out of the home it is resolved in; and an accepted
request head can be read in one way only.
