# benchcli

An HTTP/1.1 benchmark client and the axum server it measures, with the
client's logic verified by Verus.

`src/` is the verified library:

| Module | What it holds |
| --- | --- |
| `flags`, `duration`, `numbers`, `text` | the client's flags in the suite's flag syntax, durations such as `1m30s`, integers as `str::parse` reads them |
| `server` | the server's flags, and how often it samples itself |
| `config` | the framework table, ports, addresses, and which process is a framework's server |
| `http`, `bytes`, `response` | request encoding, pipelined batches, and the response reader behind each connection's buffer |
| `bench` | what the three benchmarks decide: dial plans, task groups, payloads, verdicts, pacing and counts |
| `stats`, `double`, `sorting`, `report`, `run` | the report columns, the double rounding they follow, and the text the console shows them in |
| `procfs`, `control` | CPU time and resident memory off `/proc`, process listings, the control requests' retries, the memory samples `/ps` answers with, and how the samples are set up |

The laws the library states are the public proof functions whose names
start with `law_`.

`app/` runs the library on tokio sockets: the client, and the axum server
when the program is run as `axum.server`. It holds what the library does not:
I/O, the async loops, floating-point CPU figures, and the JSON encoding of
the reports.
