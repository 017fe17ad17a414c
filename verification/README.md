# soc_core

The core of a security-operations pipeline: raw log lines and JSON records
become canonical events, events are matched against detection rules and
indicators of compromise, recorded in a graph of entities, and correlated
into incidents (brute force, lateral movement, exfiltration, privilege
escalation).

- `src/` is the verified library. Each module states its behaviour in
  `requires`/`ensures` contracts over mathematical models (`Seq`, `Set`,
  spec functions), and the library-wide properties are public proof
  functions whose names begin with `law_`.
  - `text`, `fields`: character-level text handling and an
    insertion-ordered string map.
  - `platform`, `shared`: time stamps, identifiers, entities and events.
  - `resolver`, `normaliser`, `input`: entity resolution (aliases, CIDR
    groups with longest-prefix match), raw-log normalisation and JSON input.
  - `sigma`, `ioc`: detection rules and the indicator filter.
  - `digraph`, `graph`: the event graph over `petgraph`, with pruning and
    chain search.
  - `correlator`, `api`: attack-chain correlation, the incident store, and
    the decisions behind the HTTP API.
- `app/` holds the programs around it: the axum API server, the event
  feeder, the SQLite baselines and the floating-point score fusion.
- `tests/` exercises the library from outside.

Scores are IEEE-754 `f32` values; the library carries them as their bits.
