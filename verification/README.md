# rust-dns

A small, fast DNS resolver that blocks domains. Blocked names get a dummy
answer; everything else is forwarded to an upstream resolver and cached. A web
portal manages it.

- `src/` is the library: the resolver's rules as verified functions on plain
  values. `blocklist` matches names, `dns` takes a query through its steps,
  `upstream` asks the servers and validates their replies, `cache` holds the
  format of the durable store, `batch` collects what background tasks write,
  `qlog` names, keeps and searches log segments, `web` guards and edits through
  the admin API, `config` holds the settings, `stats` the counters. `message`
  is the boundary to the DNS wire format; `text`, `order`, `decimal`,
  `bigendian` and `clock` are what the others are built on.
- `tests/` runs the library on concrete values.
- `app/` is the program around it: sockets, files, the cache in RAM, the store,
  the web server and the columnar log.
