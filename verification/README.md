# switchyard

The routing core of an LLM gateway, verified with Verus.

- `src/` is the library: judge-backed classifiers and the routes built from them, the selection of
  what a judge is shown, bandit arms, routing and transcript records. Every function has a contract
  that is proved, and public functions named `law_…` state what holds of the library as a whole.
- `app/` is the host side: model calls, random draws, log files and the command line.
- `tests/` runs the library.

Doubles are held as bit patterns (`binary64`), whose arithmetic is proved to round as IEEE 754
prescribes, so thresholds, prices and rewards are exact in contracts. What the library relies on
from other crates stands in a few trusted items: `serde_json` values (`json`), SHA-256
(`transcript`), JSON Pointers (`selector`), HTTP headers (`headers`) and timestamps (`clock`).

Classifiers that talk to models are written as steps: each takes what came back and says what is to
be done next, so the host holds no routing decisions.
