# MicroserviceDB

A JSON document database that is spoken to over a websocket, stored in MongoDB
and sped up by a Redis-compatible cache, and a client for it.

`src/` is the library, with every rule proved in Verus: JSON values and their
text, paths, filters, sorting, projections, update operators, query plans and
indexes, cached documents and responses, the operations on collections and
databases, the settings, backups, and the client's state.  `src/laws.rs` states
what the operations promise together.

`app/` is the server and the connection of the client: sockets, MongoDB, Redis,
files and timers.  It performs what the library decides.

`tests/` runs the library on concrete values.
