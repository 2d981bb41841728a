# crap_cache

A small caching HTTP/1 proxy in front of one host. It answers `GET` requests from
an in-memory LRU cache where it can, and forwards every other request.

- `src/` is the library, verified with Verus: the decisions about requests and
  responses (`proxy`), the format of a cache entry (`entry`), the cache (`cache`),
  the copy made of a body on its way to the client (`body`), and the errors of
  pooled connections (`pool`). `headers`, `status` and `text` hold what these
  build on. Calls into other crates are not proved: each stands in a function
  marked `external_body`, whose contract is trusted. Those into `http` are in
  `headers`, `status` and `proxy`, those into `bytes` in `body`, those into `lru`
  in `cache`. `pool` only carries the error types of `hyper` and `std`.
- `app/` listens, connects and moves bytes; every decision is the library's.
- `tests/` runs the library with the real `hyper` and `lru`.

A response says in `X-CRAP-CACHE` where it came from: `hit` (from the cache),
`miss` (from upstream, and being stored) or `skip` (from upstream, not stored).
