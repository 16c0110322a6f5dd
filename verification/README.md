# mininet

An HTTP/1.1 client stack for a unikernel: smoltcp for TCP, rustls for TLS, a NIC
queue per worker, and no socket layer. The RX queue a flow lands on is a function of
its 4-tuple, and the stack picks its own source ports, so each worker owns one queue
outright and shares nothing.

`src/` is the verified library. Its functions state what they return or change, and
Verus proves it. What a TLS session makes of its input is not known beforehand: there
the contracts say what is handed to the session, and what becomes of each answer.

| module | what it is |
| --- | --- |
| `http`, `http_laws`, `text` | the response parser, body sinks, and what holds of them however a response is cut up |
| `exchange`, `conn`, `conn_laws` | one request on one connection: completion, timeouts, the TLS record pump |
| `worker` | a queue's connections, its ports, dialling and reuse |
| `service`, `queue` | requests picked up, retried once, answered once; the handoff to a worker |
| `rss`, `device`, `arp` | the steering model, the inbound filter, the transmit batch, ARP frames |
| `nic`, `dhcp` | bringing the port up and learning the network, step by step |
| `stats`, `stats_laws`, `clock`, `print`, `capi`, `endpoint`, `error` | counters and percentiles, time, console lines, the C ABI's computations |
| `net`, `tls` | the calls into smoltcp and rustls, with what is relied on of each |

What is relied on without proof stands in `net`, `tls` and one function of `text`: a
declaration for each outside type, and a contract for each outside call, with a
comment that says what it claims.

`app/` is the ordinary Rust around the library: the shim's C functions, smoltcp's
device and interface, threads, the allocator, and the C ABI itself. `tests/` runs the
library with the real smoltcp and rustls, over a loopback interface, in the clear and
over TLS.
