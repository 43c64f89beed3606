# omni_ping

A UDP ping-pong latency monitor. The library in `src/` is verified with Verus;
`app/` holds the two programs (echo server and pinging client with its web
dashboard) around it.

- `src/wire.rs`: the echo encoding of socket addresses and the server's reply
  to each ping, written through the `bytes` crate.
- `src/clock.rs`: local calendar readings of an instant, from `chrono`, and the
  proleptic Gregorian calendar they follow.
- `src/calendar.rs`: the date of a day determines the day.
- `src/text.rs`: bucket labels and date-times as chrono's format strings write
  them, and the order labels sort in.
- `src/stats.rs`: the bounded ping history and the report drawn from it.
- `src/session.rs`: the client's decisions for each ping.
- `src/properties.rs`: properties that span calls (window, zoom, buckets,
  drill-down).

The dashboard page is read from `stats.html` in the working directory.
