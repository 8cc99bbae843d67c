# netservices

A library for peer-to-peer nodes, verified with [Verus](https://github.com/verus-lang/verus).

`src/` decides. It holds no sockets, threads or clocks: what happened comes in, and what is to be
done comes out.

- `transport` turns bytes into frames and frames into bytes, and keeps the remotes of a node.
- `service` accepts connections, takes in sessions, settles conflicts between two connections with
  the same node, and says when and why a remote is disconnected.
- `client` sends each request over a connection of its own and hands back the reply.

Each function states in its contract what it returns and how the state changes, over the ghost
types `ServiceState` and `ClientState`. The `laws` modules prove what follows for any number of
calls, among others that:

- frames that a service receives come out as they were sent, however the bytes are cut into
  pieces (a reply to a client has to arrive whole);
- both ends of a double connection close the same one of the two;
- no node ever has two sessions in use, and no node has one with itself;
- a request gets at most one reply, and only its own.

A service works with node identities whose `==`, `<` and hash mean what they should
(`ident::lawful`) and with frames that take at least one byte each (`frame::productive`). The laws
on frames ask for types that read back what they write (`laws::faithful`), or whose answer does not
change when more bytes follow (`laws::settled`). One item is trusted: cloning an `Arc` gives a
pointer to the same value.

`app/` performs what was decided, in the threads of a reactor: it polls the sockets, calls the
controller of a service and runs the client.
