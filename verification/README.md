# cquic

A slim, unencrypted reliable transport over UDP: connections with a reliable, ordered message
channel and a best-effort datagram channel, many frames to a datagram, encoded with `bitcode`.

The protocol is verified with Verus. `src/` is the library, free of sockets, clocks and tasks:

- `frame` and `codec`: the wire format, and the packer that collects frames into datagrams;
- `inner`: the send window, acknowledgements and retransmission of a connection;
- `command`, `conn` and `send`: the queues between a connection and its user, what a connection
  makes of frames that arrive, and its turn to send;
- `endpoint`: the connections behind one socket, the handshake, and the way of a datagram;
- `stream` and `laws`: what holds of all this together. `law_delivery` says that over a network
  that loses, repeats and reorders datagrams, the user picks up messages unaltered, in order,
  none twice and none left out;
- `payload` and `error`: shared byte buffers, and the errors.

`app/` puts the library on `compio`: the socket, the two tasks of an endpoint, the queue of
connections that wait to be accepted, and the signals that wake the users of connections.

What is taken on trust is small: a few methods of `bytes::Bytes`, `bitcode::encode` and
`bitcode::decode`, and `fastrand::u32`. Each stands in a function of its own whose comment says
what is claimed of it.
