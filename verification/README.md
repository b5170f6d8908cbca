# dwd

The core of the DWD traffic generator and of its companion test backend, verified with Verus.

- `src/` is the library. Its functions carry contracts that are proved; the few that call other crates
  say in their doc comments what is taken on trust.
  - `text`, `float`, `totals`, `figures`, `rates` compute and render the figures of a report;
    `float` is correctly rounded binary64 arithmetic on integers.
  - `histogram`, `stat`, `snapshot`, `sampler`, `summary` keep statistics and turn them into the
    end-of-run report.
  - `shaper`, `budget`, `engine`, `produce`, `net`, `control`, `jsonline` hold the rules of the load engines,
    of the rate control and of the request payloads.
  - `dpdk`, `worker` hold those of the DPDK engine: set-up, packet distribution, transmission and
    shutdown.
  - `backend` holds the rules of the test backend.
- `app/` performs the input and output around the library: the backend's `main`, the servers, the
  engines' sockets and threads, and the calls into DPDK.
- `extras/dpdk_shim.c` stands in for DPDK's inline functions.
- `tests/` exercises the library.
