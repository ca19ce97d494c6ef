# doubleshot

A helper for blue-green deployments on one machine, behind Nginx. An artifact is
started in the slot that has no traffic, asked whether it is ready, and only then
given the traffic. Where anything fails before the record is changed, the slot
that had the traffic keeps it.

## Layout

- `src/` is the library, verified with Verus. It decides and computes, and
  touches no file, process or connection.
  - `deploy`, `lock`, `serve`, `process`: the course of a deployment, the
    deployment semaphore, the watch over the inbox, starting and stopping an
    application. Each is a function from what came of the last action to the next
    action.
  - `switch`, `state`, `release`, `events`: what is written to disk, in which
    order, and how it is read back.
  - `turns`: what holds of one deployment after another.
  - `config`, `slots`, `template`, `env_file`: settings and what is made of them.
  - `http`: the health check over HTTP.
  - `nginx`: a proposal for a configuration, from that of an existing Nginx.
  - `text`, `number`, `order`, `paths`, `failure`, `output`: what the others
    share.
- `app/` is the program: arguments, files, processes and connections.
- `tests/` runs the library, whole deployments included, on a disk in memory.

## What is taken on trust

- `nginx::syntax::parse_main` calls the parser of the crate `nginx-config`. What
  it returns has a name, `parsed`, and is otherwise not described. The parser
  panics on some texts; `parser_takes` says on which texts it is called. The
  functions below it copy the parser's tree into the library's own.
- `paths::parent`, `paths::file_name` and `paths::with_extension` call
  `std::path::Path`, on systems where `/` stands between the parts of a path.
- `text` gives `String::push` its contract.

## Commands

    doubleshot serve
    doubleshot deploy ARTIFACT
    doubleshot follow ARTIFACT
    doubleshot status
    doubleshot init-config [--from-nginx]
