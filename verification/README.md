# askable

A regression judge for ranked search: it replays a frozen set of questions
against a search service, records case by case where the right answer landed,
and compares two such records to say whether to worry.

## Layout

- `src/` is the library, verified with Verus. Every public function states
  what it returns in its `ensures`, over the spec functions and views of its
  module, and the `law_*` proof functions state what holds across calls.
  - `cli` reads the arguments of `run`, `judge` and `tail`.
  - `candidate` checks a candidate and builds the URL of a question
    (percent-encoding included).
  - `corpus` checks a corpus and computes its fingerprint (FNV-1a over what
    the corpus asks, not over how the file is laid out).
  - `record` holds outcomes and records, ranks the expected answers and writes
    the timestamp; `calendar` is the civil calendar behind it.
  - `replay` reads a service's answer and keeps the state of a replay, one
    case at a time.
  - `verdict` pairs two records case by case, and states the exact McNemar
    bound the judge applies.
  - `report` lays out the summary of a run and the verdict of a comparison.
  - `table` lays out events as a table for `tail`.
  - `config` holds the candidates by name and the judge's cutoffs.
  - `text` is the small vocabulary of strings the others build on.
- `app/` is the program around it: files, network, clock, terminal, exit code,
  the serde copies of the library's types, and the few computations on
  floating-point numbers (recall rates, the mean reciprocal rank, the McNemar
  p-value and its comparison with the configured level).
- `tests/` exercises the library from outside.
