# QSO Sidecar

The logic of a local, read-only contest dashboard for the August 2026 NAQP CW, written in
[Verus](https://github.com/verus-lang/verus): what each function returns is stated in its contract
and proved.

- `src/` is the library.
  - `naqp`, `naqp_catalog`, `matrix`: the rules of the contest, the multiplier checklist and the
    matrix of the dashboard.
  - `adif`, `call_history`, `lofi`, `log_source`, `storage`: reading exports, call histories and
    the records of the log service, merging them into the log, and what is kept of it.
  - `rbn`, `rbn_locality`, `spots`, `mult_finder`: reports of stations heard, skimmers nearby, and
    which stations would bring a new multiplier.
  - `evidence`, `source_policy`, `qrz`: what is known of a station, and where it comes from.
  - `runtime`, `sync`, `round`, `demo`: the state behind the dashboard and what happens to it.
  - `text`, `numbers`, `bytes`, `json`, `time`, `frequency`, `sort`, `string_map`, `model`: what the
    others are built of.
- `tests/` runs the library.
- `app/` is the program around it: the web server, the connections and the files.

Public proof functions whose names begin with `law_` state what holds across functions, such as that
importing an export twice changes nothing. Functions marked `external_body` call other crates or the
standard library; their contracts are believed, not proved, and say so.
