# collector

Records live market data of exchanges into a catalog. A YAML file names data
types (`book_deltas`, `quotes`, `trades`), under each of them exchanges
(`binance`, `hyperliquid`, `lighter`), and under each exchange the instruments:

```yaml
book_deltas:
  binance:
    - BTCUSDT-PERP.BINANCE
trades:
  lighter:
    - BTC-PERP.LIGHTER
```

`src/` is the library, verified with Verus: the configuration, read from the
YAML text, and its grouping into one plan per exchange, what the collecting
actor requests and subscribes to, which recorded files are closed, and the steps
of their conversion. Paths are POSIX byte strings. `app/` is the program around
it: files, the trading system and its data clients. Besides the dependencies of
the library it takes the data clients of Hyperliquid and Lighter and the Parquet
catalog from their own crates, which bring some hundred packages that the
library has no use for.

| module | content |
| --- | --- |
| `config`, `plans` | the configuration, and the plans of the exchanges |
| `identifiers` | instruments and clients |
| `actor`, `subscription_laws` | requests and subscriptions, and what holds of them |
| `adapters`, `settings` | how clients are set up and how is recorded |
| `conversion`, `conversion_pass` | closed files, and the steps of converting them |
| `live_tree`, `collection_laws`, `pass_laws` | the files as a set, what is collected of it, and what passes leave |
| `paths`, `names`, `ordering`, `results` | what the others build on |
