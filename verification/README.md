# tcp_speeder

A service that measures TCP connection times to the addresses of configured
endpoints, keeps a CSV history of the measurements, and pins the best
reachable address of each domain in `/etc/hosts`, inside a section between
the lines `# TCP Speed Test` and `# End TCP Speed Test`.

- `src/` is the verified library (Verus):
  - `text.rs`: Unicode whitespace, `trim`, reading and writing lines;
  - `order.rs`: the byte order of strings;
  - `endpoint.rs`: `domain:port` endpoints and decimal ports;
  - `clock.rs`: the system clock read as a UTC instant;
  - `records.rs`: retention cleanup, removal of a dead address, grouping of
    the history by address and by domain;
  - `best.rs`: the chosen address of each domain, sorted by domain;
  - `hosts.rs`: the rewrite of the hosts file, with its laws;
  - `schedule.rs`: the pause between rounds and the choice among candidates.
- `app/` is the program around it: configuration, DNS, TCP connections,
  timing, the CSV files, floating-point weights, and the hosts file itself.
- `tests/` runs the library on concrete values.
