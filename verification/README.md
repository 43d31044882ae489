# kern

The core logic of a knowledge-graph memory daemon, written in Verus and
proved against its contracts.

- `src/` is the verified library: claim distillation (prompt, reply parsing,
  kinds), chunk splitting, what the intake drain does with each queued file,
  ingest outcome classification, the MCP tools' request decisions, LAN
  discovery payloads, per-peer admission caps and per-origin budgets,
  duplicate suppression of gossip messages, the gossip routing ledger, the
  in-memory truncatable table, entity interning and path reading, reading a
  reranker's reply and reordering by it, endpoint classification and
  model-failure handling, the agent setup text, calendar arithmetic and
  RFC 3339 parsing, and the `int8` dot-product kernel. Each public function
  carries a contract over spec functions; the laws the library keeps are
  public proof functions. Clock and calendar values stay the platform's
  (`Instant`, `Duration`, `SystemTime`); what std computes from them (elapsed
  time, span length, order, offset from the epoch) is named in `clock.rs`
  and `time.rs`, and windows, lifetimes and dates are stated over those
  names.
- `tests/` runs the library on concrete inputs.
- `app/` is the command line and what touches the disk or the network: the
  intake directory (reading, archiving, error sidecars, one drain pass),
  discovery and hub plumbing, process-wide counters, the wire formats that
  carry `serde` derives, and the score fusion of federated hits, which is
  floating point.
