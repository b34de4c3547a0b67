# Balancebeam

`balancebeam` is an HTTP load balancer and reverse proxy. It accepts requests of clients, forwards
them to upstream servers, and returns their responses.

`src/` is the library. It takes the decisions of the proxy, and Verus proves that each of them is
what its contract says:

- `text`, `headers`, `message`, `parse`: texts and numbers, header fields, and message heads
- `request`, `response`: reading and writing messages, piece by piece
- `cache`: which responses are cached, and which one leaves a full cache
- `state`, `keyed`, `config`: what connections share
- `upstream`: the choice of an upstream, connecting to it, and active health checks
- `proxy`: rate limiting, and the handling of a client connection

The library does no I/O. Where reading, connecting and answering alternate with decisions, the
library holds the state between two events and says what is to be done next. Proof functions whose
names begin with `law_` state what holds of the library as a whole: that the rate limit holds in
every window of a minute, that no upstream gets a request twice, that what was cached is what is
answered, and more.

`app/` is the program around the library: sockets, timeouts, tasks, the command line and the log.

`tests/` runs the library with the crates it rests on: `http`, `httparse`, `lru` and `rand`.
