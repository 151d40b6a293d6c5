# sling

A Core Lightning plugin that rebalances channels automatically, with its
decision logic verified by Verus.

- `src/` is the verified library: job arguments and options, the gossip
  store reader and channel graph, the route search, the candidate and health
  checks of a job, what each payment answer leads to and what the task
  loop does after each round, our private channels' graph entries, the
  fee arithmetic and its monotonicity, the task table, the
  saved jobs, excepts and statistics. `src/laws.rs` states the properties
  that span several operations.
- `app/` is the plugin around it: the node's RPC, hooks and notifications,
  files, timers and the task loop that performs what the library decides.
- `tests/` runs the library on concrete values.
