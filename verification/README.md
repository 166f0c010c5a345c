# crawlee-storage

Filesystem-backed storages for crawlers: datasets, key-value stores and request
queues. The rules of the on-disk layout are written in Verus and proved; reading
and writing files happens around them.

## Layout

- `src/` is the verified library. It decides which files a storage consists of,
  what goes into them and in which order things come out; it never touches a file.
  - `text`, `path`, `order`, `json`, `key_map`: the building blocks.
  - `clock`, `utils`, `json_text`: time, names and texts, with the calls into
    chrono, rand, sha2, base64, percent-encoding and serde_json. Each of these
    calls stands in a small function whose contract is taken on trust.
  - `models`, `error`, `storage`, `pagination`: what all storages share.
  - `dataset`, `key_value_store`, `key_listing`, `request_queue`, `add_batch`: the
    storages themselves.
  - `dataset_laws`, `store_laws`, `queue_laws`, `queue_runs`: what their rules add up to.
  - `stub_gen`, `python`, `bindings`: the rules of the language bindings.
- `app/` holds the asynchronous clients, the bindings for Node.js and Python, and
  the writer of the Python type stubs.
- `tests/` runs the library on concrete values.

## On disk

```text
{storage_dir}/datasets/{name}/000000001.json
{storage_dir}/key_value_stores/{name}/{encoded key}
{storage_dir}/key_value_stores/{name}/{encoded key}.__metadata__.json
{storage_dir}/request_queues/{name}/{digest of the unique key}.json
```

Each storage also has a `__metadata__.json` of its own.
