# Loadforge

A load generator: virtual users send weighted HTTP requests, run business
flows, listen to server-sent events or exchange WebSocket messages, and a
summary of what happened comes out.

`src/` is the verified library. It decides everything and performs nothing:
what a plan asks for, what each virtual user does next, how bytes are framed
and taken apart, what is counted, and what the result is.

| module      | what it holds                                                       |
|-------------|---------------------------------------------------------------------|
| `engine`    | a plan, the run that it asks for, the result                        |
| `plan`      | the dynamically typed values of a plan                              |
| `scheduler` | endpoints, flows, rate, iterations, HTTP virtual users              |
| `sse`       | event streams and the virtual users that listen to them             |
| `ws`        | WebSocket handshake, frames, messages and virtual users             |
| `client`    | addresses, requests, replies, assertions, connections               |
| `metrics`   | counters, percentiles, the time series                              |
| `template`  | variables: extraction from replies, substitution into requests      |
| `json`      | JSON values                                                         |
| `text`      | text and numbers                                                    |

Each virtual user is a state machine: it is told an event and answers with an
action. `app/` is the Python module around the library. It performs the actions
(sockets, TLS, HTTP, timers), and computes what is floating point: the load
curve, the ramp-up, rates and averages.

The laws of the library are its public proof functions, next to what they
speak of.
