# Byssus

Byssus keeps directories of bind mounts in step with membership directories: an
empty file named after a project, placed in the membership directory of a
group, makes that project's workspace appear in the group's view, and removing
the file makes it disappear again. Byssus only ever unmounts what it mounted.

## Layout

- `src/` is the library: everything that Byssus decides. Every function states
  what it returns in a contract that Verus proves.
  - `name`, `path`, `template`, `identity`: the values that everything else is
    made of.
  - `raw`, `config`, `sets`, `load`, `check`: reading and validating a
    configuration, group sets, the steps of loading, and checking candidate
    fragments before they are installed.
  - `membership`, `discover`, `users`: what directories and the user database
    say, once they have been read.
  - `state`, `document`, `store`, `object`, `json`: the records of mounts, and
    their file.
  - `reconcile`: observing, planning, and executing a pass. `reconcile/laws`,
    `reconcile/table` and `reconcile/confined` hold what holds of every plan.
  - `privileges`, `probe`, `mountinfo`, `mount`, `fsops`, `sys`: decisions around
    system calls, given what the calls returned.
  - `daemon`, `watcher`, `notify`, `logging`, `command`, `report`, `render`, `app`, `cli`:
    the daemon's loop as a state machine, and what the commands print.
- `app/` holds the two programs, `byssusd` and `byssus`: arguments, files,
  system calls, signals. It hands the library plain values and carries out what
  the library answers.
- `tests/` runs the library on concrete values.

## What is proved

Each public function's `ensures` fixes its result for every input that its
`requires` admits, and most have no `requires`. Promises
that span functions are public proof functions whose names begin with `law_`:
that a plan touches only recorded mounts, that a frozen group is left alone,
that every step waits for those it depends on, that a settled state needs
nothing done, that a saved state is loaded back, and others.

What is believed without proof is marked `external_body` or
`assume_specification`: the calls into `serde_json`, `toml`, `jiff` and a few
functions of the standard library. The comment above each says what is claimed.
