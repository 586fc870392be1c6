# vouch

The engine of a security-first AUR helper, written and proved in Verus, with a
small program around it.

A package is vetted before anything of it runs. Its metadata, its recipe and its
install hooks give findings; the findings give a score and a decision; and the
decision is held against the flags of the user before a build starts. The build
runs in two phases, the second without the network. What was approved is
remembered, so that a recipe that changed is noticed.

## Layout

- `src/` is the library. It computes on plain values only, and all of it is
  verified.
  - `package`, `score`, `trust`, `scan`, `ioc`, `security`: findings and verdicts.
  - `gate`, `report`: what a verdict means for a build, and how it is shown.
  - `recipe`, `rpc`, `pacman`: what is read of recipes, the AUR and the local
    databases.
  - `resolve`, `graph`, `upgrade`, `devel`: dependencies, build order, upgrades.
  - `review`: approvals and what changed since.
  - `sandbox`, `makepkg`: how a build is run.
  - `compat`: command lines in the style of pacman.
  - `text`, `order`, `sort`, `names`, `paths`: strings and ordered collections.
  - `pattern`, `digest`: regular expressions and SHA-256, by plain values.
- `tests/` runs the library.
- `app/` is the program: arguments, requests, files and child processes.

## What is trusted

The library calls `regex`, `sha2` and `similar`, and two functions of the
standard library that the verifier has no specification for. Each call stands
behind one function or specification whose comment says what is claimed of it.
