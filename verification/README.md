# dhcp

A verified library for Streams that arrive as DHCP client messages (RFC 2131),
and for the replies that answer them.

- `src/` reads and writes datagrams, `name=value` option lines, origins and
  targets, and keeps both ends of the loopback's conversation. Every function
  has a contract over a view of its arguments; the proof functions named
  `law_...` state what holds across functions.
- `app/` holds the sockets: binding, receiving, sending, and running the
  loopback over UDP.
- `tests/` runs the library on given values.

Modules of the library:

| module      | what it holds                                             |
|-------------|-----------------------------------------------------------|
| `message`   | messages, message types, hardware addresses               |
| `wire`      | messages as datagrams                                     |
| `option`    | option names and values as text                           |
| `lines`     | options as `name=value` lines                             |
| `transport` | what arrives, and the reply that a target describes       |
| `loopback`  | a Stream sent as informs, each acknowledged               |
| `ipv4`, `number`, `text`, `utf8` | addresses, numbers and text          |
| `error`     | what is refused, and the sentence that says so            |
