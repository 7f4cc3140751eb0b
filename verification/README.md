# Outcrop

A read-only web dashboard for [SlateDB](https://slatedb.io): it inspects
databases directly from object storage, layer by layer, and performs zero
writes.

The computing core is a library verified with Verus (`src/`): database
discovery over an object store's prefixes, manifest diffs and their
summaries, LSM summaries with key-coverage histograms and level slices,
garbage classification and the GC's cutoff, health warnings, listing
bookkeeping and its refresh schedule, paging and cross-resource search,
the Prometheus exposition, store-configuration validation and variable
expansion, and the demo traffic generator's write shapes. Each public
function states its result in its `ensures`; the laws that relate several
calls are public proof functions.

`app/` is the program around it: the HTTP server and routes, object-store
reads through SlateDB, caches, the configuration file, and the demo
traffic tool. It hands the library plain values and serves what comes back.

`tests/` exercises the library on concrete values.

## Running

```sh
# Single store from ambient env vars (exactly like slatedb-cli).
CLOUD_PROVIDER=local LOCAL_PATH=/path/to/store outcrop
# Multiple stores via a TOML config.
outcrop serve --config stores.toml
# API only, or UI only against a remote API.
outcrop serve --api-only
outcrop serve --ui-only --api-url http://api-host:8333
# Seed demo databases and simulate traffic against them.
outcrop traffic
```
