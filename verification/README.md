# graphql_test

A WebRTC signaling and book-keeping service: GraphQL over HTTP and
WebSocket. Clients get a session (a signed token in a cookie), listen for
signals, join rooms, send each other signals, and keep a small list of books.

- `src/` is the verified library (Verus): session cookies and claims,
  decimal ids, the book store over a `slab::Slab`, a keyed publish/subscribe
  registry over `futures` channels, and the signaling state (rooms and
  listeners over `dashmap::DashMap`) with the decisions of every GraphQL
  resolver. Outside calls stand behind small trusted items whose contracts
  are stated in their doc comments.
- `app/` is the server around it: actix-web, async-graphql, the tokio
  channels that carry room states and signals, JSON Web Tokens, tracing.
- `tests/` runs the library on concrete values.

What the registry states, and how far: each subscriber keeps, in ghost
code, the list of messages handed to its channel's sending half and the
receiving half of that same channel, which is the one `subscribe` returns
(both halves come from one call of `futures::channel::mpsc::unbounded`, in
`new_subscriber`). Publication is stated up to that hand-off log; that the
receiving half then yields the log in order is what `futures`' channel
does, and is not stated, since naming what a receiver of any message type
yields would need a generic name for it. The subscribers of a key are a
`Vec` with the smallest free id handed out, not a
`Slab<UnboundedSender<T>>`: the contents of a slab whose item type is
generic cannot be named either. A room's users are a `Vec<String>` with no
name twice, where a set would do.

Whether a user still listens for signals follows the user's signal
channel: when one of its streams closes, the service reads how many
receivers the channel still has and hands that number to
`RoomsStorage::stop_listening`.
