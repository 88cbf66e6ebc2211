# ceph-long-request-watcher

Watches the requests that the Ceph kernel client lists under `/sys/kernel/debug/ceph`, and exposes
how long the longest of them has been waiting to Prometheus (`/metrics`), and all of them to people
(`/requests`).

- `src/` is the library, verified with Verus: reading the lists, keeping track of requests, listing
  them, and understanding the command line. Lines are taken apart by the `regex` crate; what the
  library takes it to do stands in `src/patterns.rs`.
- `app/` is the program around it: files, clock, HTTP server, floating-point output.
- `tests/` run the library.

What is proved, besides the contract of each function, stands in proof functions named `law_...`:
that what is written into a list is what is read from it, that a request has been waiting since the
round in which it was first seen without a break, that the longest wait that is reported is the one
that is listed last, and others.
