# hermes_monitor

The verified core of the Hermes usage dashboard, which collects LLM API usage
and rate-limit metrics, buffers them, writes them to InfluxDB and shows them.

- `src/` is the library, verified with Verus:
  - `usage`: usage and rate-limit records, token totals with overflow detection;
  - `storage`: the `Storage` interface and the bounded FIFO `InMemoryStorage`,
    with the laws of eviction;
  - `line_protocol`: tag escaping and the InfluxDB line-protocol encoding;
  - `influx`: InfluxDB settings, the usage query request, and the parser for
    InfluxDB's annotated CSV answers;
  - `providers`: provider key configuration and the decisions around key
    checks and usage queries;
  - `error`: the back end's errors and their messages;
  - `ui`: thousands grouping for displayed numbers;
  - `text`: decimal rendering, white space, trimming, splitting, integer parsing.
- `tests/` exercises the library on concrete values.
- `app/` is the service around it: shared buffers behind a lock, the writer
  loop, the HTTP calls to InfluxDB and the provider APIs, the JSON answers,
  the summary types that carry `f64` costs, and the dashboard page.
