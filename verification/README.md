# arb_engine

A triangular-arbitrage system for Binance spot markets, written as a verified Verus
library with a thin service layer around it.

Three services share the library:

- **market-data** subscribes to the partial-depth streams of every pair, spread over
  websocket connections, and publishes each order-book snapshot on the Redis stream
  `market_stream`;
- **engine** keeps the last five snapshots of every symbol, builds the graph of tokens
  and the triangles stablecoin → B → C → stablecoin, prices the triangles through each
  updated symbol and publishes profitable plans of three limit orders on `plan_stream`;
- **executor** places the orders of each plan in turn and watches an order that does not
  fill at once until it fills or its time is up.

## Layout

- `src/` — the library, verified by Verus:
  - `decimal.rs` — decimals as (mantissa, scale), the `rust_decimal` operations they
    rely on, and truncation to a lot step;
  - `exchange.rs`, `messages.rs` — pair metadata and the messages between services;
  - `collections.rs` — the `petgraph` graph and `ahash` maps and sets used by the graph;
  - `graph.rs` — the token graph, the triangles and their indices;
  - `math.rs` — order amounts, dust, profit and the plan of a triangle;
  - `cache.rs` — the per-symbol ring of snapshots, the queueing of symbols, the choice
    of the triangles to price and of the plans to publish;
  - `market.rs` — grouping of streams into connections, websocket frames, depth updates;
  - `executor.rs` — order sides, the watch of an order and the order of the legs;
  - `config.rs` — the engine's settings read from text;
  - `observability.rs` — metric descriptions.
- `tests/` — tests of the library.
- `app/` — the services: configuration from the environment, Redis, HTTP and websocket
  I/O, task pools, metrics and the health endpoint (`main.rs` takes the service name as
  its first argument).
