# rust_redis

A small in-memory key/value server in the manner of Redis: strings, lists
and sets, keys that expire, a line-based command grammar, publish/subscribe
channels, a configuration file and a dump file that the database is saved to
and loaded from.

The library under `src/` is verified with Verus; every public function states
what it returns and what it changes:

- `database`, `hash_shard`, `ttl`: the dictionary, the table of expiry times
  and the commands, each specified by a `<command>_post` predicate over the
  state before and after; `dump_text` and `load` for the dump file.
- `request`, `dispatch`, `commands`: reading a request from its text and
  running a query on the database.
- `channels`, `pubsub`, `session`: channels and their listeners, the requests
  of subscribers and publishers, and one client's session.
- `server_conf`, `config_parser`, `conftable`: the configuration.
- `text`, `strvec`, `sorting`, `sortflags`, `assoc`, `matcher`: the text,
  list, ordering and glob-pattern helpers the rest is stated over.
- `logger`, `http`: the lines of the log file and the web front end's logic.
- `laws`: what holds of several commands together, proved over their
  contracts (a read after a write, an undo, the dump read back by `load`).

`app/` holds the program around it: the listener, one thread per client, the
periodic save of the dump file and removal of expired keys, and the log file.
