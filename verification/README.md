# flint_core

Core of Flint, a framework for testing Minecraft server behaviour: test
specifications (blocks placed, actions performed and assertions checked on
given ticks), their validation, the runner that drives a test against a
server, results and summaries, the tag index of a test directory, and links
from a failing run to the visualiser.

## Layout

- `src/` is the library, written in Verus and verified:
  - `test_spec.rs`: the specification model and `TestSpec::validate`;
  - `timeline_validation.rs`, `error.rs`: whole-file checks and their messages;
  - `spatial.rs`: batch layout of tests in a grid, without overlap;
  - `plan.rs`: the steps of a test run, derived from a specification;
  - `runner.rs`: judging server replies (block, item and entity matching) and
    the `TestRun` state machine;
  - `results.rs`: assertion results, failures, test results and summaries;
  - `nbt.rs`: entity NBT as JSON trees and its SNBT text;
  - `index.rs`: the tag index;
  - `viz_link.rs`: the gzip + URL-safe base64 payload of visualiser links;
  - `version.rs`: `flintVersion` gating;
  - `string_map.rs`, `text.rs`, `traits.rs`: supporting types.
- `app/` holds what is not verified: serde copies of the model, the
  server-facing traits and the loop that performs each step of a `TestRun`
  on a world, floating-point entity geometry, index and test file I/O, and the
  `flint-validate` command.
- `tests/` runs the library on concrete inputs.

A server adapter implements `FlintAdapter`, `FlintWorld` and `FlintPlayer`
(in `app/`); `TestRunner::run_test` asks the verified `TestRun` for each
request, performs it, and hands back the reply until the run is finished.
